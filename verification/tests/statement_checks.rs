use theoremata_prover::formal::FormalSystem;
use theoremata_prover::statement_preservation::{
    check_context_preserved, check_context_preserved_for, check_entry_signature,
    check_statement_preserved, format_error_spans, scan_escape_hatches, splice_canonical_statement,
    ContextChangeKind, LeanError, PreservationVerdict, SpliceVerdict,
};

/// A proof on the canonical statement passes (exact match).
#[test]
fn canonical_statement_is_preserved() {
    let canonical = "theorem add_comm (a b : Nat) : a + b = b + a";
    let submitted = "theorem add_comm (a b : Nat) : a + b = b + a := by ring";
    let r = check_statement_preserved(canonical, submitted);
    assert!(r.preserved, "exact match must pass: {:?}", r.findings);
    assert_eq!(r.verdict, PreservationVerdict::Preserved);
    assert!(r.findings.is_empty());
    assert!(r.into_scan_report().clean);
}

/// Whitespace / newline differences do not defeat preservation.
#[test]
fn whitespace_differences_still_preserved() {
    let canonical = "theorem T (n : Nat) : n = n";
    let submitted = "theorem T   (n : Nat)\n    :  n = n := rfl";
    let r = check_statement_preserved(canonical, submitted);
    assert!(r.preserved, "{:?}", r);
    assert_eq!(r.verdict, PreservationVerdict::Preserved);
}

/// A pure bound-variable rename is accepted up to alpha.
#[test]
fn alpha_renamed_binders_are_preserved() {
    let canonical = "theorem T (n : Nat) : n = n";
    let submitted = "theorem T (m : Nat) : m = m := rfl";
    let r = check_statement_preserved(canonical, submitted);
    assert!(r.preserved, "alpha rename must pass: {:?}", r.findings);
    assert_eq!(r.verdict, PreservationVerdict::PreservedAlpha);
}

/// A weakened statement (dropped hypothesis) is flagged, fail-closed.
#[test]
fn weakened_statement_is_flagged() {
    let canonical = "theorem T (n : Nat) (h : n > 0) : n ≥ 1";
    let submitted = "theorem T (n : Nat) : n ≥ 1 := by omega";
    let r = check_statement_preserved(canonical, submitted);
    assert!(!r.preserved);
    assert_eq!(r.verdict, PreservationVerdict::BindersChanged);
    assert!(r.findings.iter().any(|f| f.contains("weakening")));
    assert!(!r.into_scan_report().clean);
}

/// A renamed statement (same signature, different name) is flagged.
#[test]
fn renamed_statement_is_flagged() {
    let canonical = "theorem add_comm (a b : Nat) : a + b = b + a";
    let submitted = "theorem my_lemma (a b : Nat) : a + b = b + a := by ring";
    let r = check_statement_preserved(canonical, submitted);
    assert!(!r.preserved);
    assert_eq!(r.verdict, PreservationVerdict::Renamed);
    assert!(r.findings.iter().any(|f| f.contains("renamed")));
}

/// A trivially-restated conclusion (`True`) is flagged.
#[test]
fn trivially_restated_statement_is_flagged() {
    let canonical = "theorem T (n : Nat) : n = n + 0";
    let submitted = "theorem T (n : Nat) : True := trivial";
    let r = check_statement_preserved(canonical, submitted);
    assert!(!r.preserved);
    assert_eq!(r.verdict, PreservationVerdict::TriviallyRestated);
}

/// An altered conclusion (same binders) is flagged as a restatement.
#[test]
fn altered_conclusion_is_flagged() {
    let canonical = "theorem T (n : Nat) : n = n + 0";
    let submitted = "theorem T (n : Nat) : n = n := rfl";
    let r = check_statement_preserved(canonical, submitted);
    assert!(!r.preserved);
    assert_eq!(r.verdict, PreservationVerdict::ConclusionChanged);
}

/// A submission that does not declare the canonical theorem at all fails
/// closed as missing.
#[test]
fn missing_statement_fails_closed() {
    let canonical = "theorem T (n : Nat) : n = n";
    let submitted = "def helper : True := trivial";
    let r = check_statement_preserved(canonical, submitted);
    assert!(!r.preserved);
    assert_eq!(r.verdict, PreservationVerdict::SubmittedMissing);
}

/// An unparsable canonical statement fails closed (cannot confirm anything).
#[test]
fn statement_preservation_unparsable_canonical_fails_closed() {
    let r = check_statement_preserved(
        "-- just a comment, no theorem",
        "theorem T : True := trivial",
    );
    assert!(!r.preserved);
    assert_eq!(r.verdict, PreservationVerdict::CanonicalUnparsable);
}

/// The canonical theorem may appear alongside helper lemmas in the submission.
#[test]
fn matches_the_named_declaration_among_several() {
    let canonical = "theorem main (n : Nat) : n + 0 = n";
    let submitted = "\
lemma helper (a : Nat) : a = a := rfl
theorem main (n : Nat) : n + 0 = n := by simp
def aux : Nat := 0
";
    let r = check_statement_preserved(canonical, submitted);
    assert!(r.preserved, "{:?}", r);
}

// -- per-system entry signature (Agda / Metamath) -----------------------

/// `check_entry_signature` delegates the Lean/Rocq/Isabelle path to
/// `check_statement_preserved` unchanged (no regression).
#[test]
fn entry_signature_delegates_for_lean_family() {
    let canonical = "theorem T (n : Nat) (h : n > 0) : n ≥ 1";
    let submitted = "theorem T (n : Nat) : n ≥ 1 := by omega";
    for sys in [
        FormalSystem::Lean,
        FormalSystem::Rocq,
        FormalSystem::Candle,
    ] {
        let a = check_entry_signature(sys, canonical, submitted);
        let b = check_statement_preserved(canonical, submitted);
        assert_eq!(a.verdict, b.verdict, "{} must delegate unchanged", sys.as_str());
    }
}

#[test]
fn isabelle_quoted_signature_is_preserved_and_comment_cannot_spoof_it() {
    let canonical = "theorem t: \"x = x\"";
    let submitted = "(* theorem t: \"x = x\" *)\ntheorem t: \"x = x\"\n  by simp\n";
    let preserved = check_entry_signature(FormalSystem::Isabelle, canonical, submitted);
    assert!(preserved.preserved, "{:?}", preserved.findings);

    let altered = check_entry_signature(
        FormalSystem::Isabelle,
        canonical,
        "theorem t: \"True\"\n  by simp\n",
    );
    assert_eq!(altered.verdict, PreservationVerdict::TriviallyRestated);
}

/// Agda: a proof declaring the requested `foo : A` passes.
#[test]
fn agda_same_type_is_preserved() {
    let canonical = "foo : A";
    let submitted = "foo : A\nfoo = a\n";
    let r = check_entry_signature(FormalSystem::Agda, canonical, submitted);
    assert!(r.preserved, "{:?}", r.findings);
    assert_eq!(r.verdict, PreservationVerdict::Preserved);
}

/// Agda: whitespace / indented-continuation differences still preserve.
#[test]
fn agda_multiline_type_is_preserved() {
    let canonical = "foo : A -> B -> C";
    let submitted = "foo : A -> B\n      -> C\nfoo x y = c\n";
    let r = check_entry_signature(FormalSystem::Agda, canonical, submitted);
    assert!(r.preserved, "{:?}", r);
    assert_eq!(r.verdict, PreservationVerdict::Preserved);
}

/// Agda: a proof declaring a DIFFERENT type (`foo : B`) is flagged.
#[test]
fn agda_different_type_is_flagged() {
    let canonical = "foo : A";
    let submitted = "foo : B\nfoo = b\n";
    let r = check_entry_signature(FormalSystem::Agda, canonical, submitted);
    assert!(!r.preserved);
    assert_eq!(r.verdict, PreservationVerdict::ConclusionChanged);
    assert!(r.findings.iter().any(|f| f.contains("DIFFERENT")));
}

/// Agda: an unparsable canonical (no `:`) falls back — NOT a flagged verdict,
/// so `verify()` defers to the mention check rather than rejecting.
#[test]
fn agda_unparsable_canonical_falls_back() {
    let r = check_entry_signature(FormalSystem::Agda, "foo", "foo : A\nfoo = a\n");
    assert_eq!(r.verdict, PreservationVerdict::CanonicalUnparsable);
    assert!(!is_flagged(r.verdict));
}

/// Agda: a legit proof whose entry the parser cannot locate falls back
/// (does not spuriously reject).
#[test]
fn agda_missing_entry_falls_back() {
    // Canonical parses, but the submission declares only the equation, no sig.
    let r = check_entry_signature(FormalSystem::Agda, "foo : A", "foo = a\n");
    assert_eq!(r.verdict, PreservationVerdict::SubmittedMissing);
    assert!(!is_flagged(r.verdict));
}

/// Metamath: a `$p` asserting the requested statement passes.
#[test]
fn metamath_same_assertion_is_preserved() {
    let canonical = "th1 $p |- ( ph -> ph ) $= ? $.";
    let submitted = "th1 $p |- ( ph -> ph ) $= wph wph mpd $.";
    let r = check_entry_signature(FormalSystem::Metamath, canonical, submitted);
    assert!(r.preserved, "{:?}", r.findings);
    assert_eq!(r.verdict, PreservationVerdict::Preserved);
}

/// Metamath: a `$p` asserting a DIFFERENT statement is flagged.
#[test]
fn metamath_different_assertion_is_flagged() {
    let canonical = "th1 $p |- ( ph -> ph ) $= ? $.";
    let submitted = "th1 $p |- ( ph -> ps ) $= wph wps mpd $.";
    let r = check_entry_signature(FormalSystem::Metamath, canonical, submitted);
    assert!(!r.preserved);
    assert_eq!(r.verdict, PreservationVerdict::ConclusionChanged);
    assert!(r.findings.iter().any(|f| f.contains("DIFFERENT")));
}

/// Metamath: canonical without a `$p`/`$a` assertion falls back (not flagged).
#[test]
fn metamath_unparsable_canonical_falls_back() {
    let r = check_entry_signature(
        FormalSystem::Metamath,
        "|- ( ph -> ph )",
        "th1 $p |- ( ph -> ph ) $= x $.",
    );
    assert_eq!(r.verdict, PreservationVerdict::CanonicalUnparsable);
    assert!(!is_flagged(r.verdict));
}

/// Metamath: a commented-out `$p` does not satisfy the check (falls back).
#[test]
fn metamath_commented_assertion_falls_back() {
    let canonical = "th1 $p |- ( ph -> ph ) $= ? $.";
    let submitted = "$( th1 $p |- ( ph -> ph ) $= x $. $)\n";
    let r = check_entry_signature(FormalSystem::Metamath, canonical, submitted);
    assert_eq!(r.verdict, PreservationVerdict::SubmittedMissing);
    assert!(!is_flagged(r.verdict));
}

/// Non-ASCII input never panics for either non-Lean system.
#[test]
fn non_ascii_entry_signature_does_not_panic() {
    let _ = check_entry_signature(
        FormalSystem::Agda,
        "β : ∀ x → x ≡ x",
        "β : ∀ x → x ≡ x\nβ x = refl\n",
    );
    let _ = check_entry_signature(FormalSystem::Agda, "café", "≤ ∞ λ π");
    let _ = check_entry_signature(
        FormalSystem::Metamath,
        "τ $p |- ∀ x $= ? $.",
        "τ $p |- ∀ x $= π $.",
    );
    let _ = check_entry_signature(FormalSystem::Metamath, "", "");
}

/// Deterministic across repeated calls for both non-Lean systems.
#[test]
fn entry_signature_is_deterministic() {
    let a1 = check_entry_signature(FormalSystem::Agda, "foo : A", "foo : B\nfoo = b\n");
    let a2 = check_entry_signature(FormalSystem::Agda, "foo : A", "foo : B\nfoo = b\n");
    assert_eq!(a1, a2);
    let m1 = check_entry_signature(
        FormalSystem::Metamath,
        "t $p |- a $= ? $.",
        "t $p |- b $= x $.",
    );
    let m2 = check_entry_signature(
        FormalSystem::Metamath,
        "t $p |- a $= ? $.",
        "t $p |- b $= x $.",
    );
    assert_eq!(m1, m2);
}

/// Mirror of `verify()`'s flagged set: only these verdicts reject the proof;
/// every other verdict falls back to the lexical mention check.
fn is_flagged(v: PreservationVerdict) -> bool {
    matches!(
        v,
        PreservationVerdict::Renamed
            | PreservationVerdict::BindersChanged
            | PreservationVerdict::ConclusionChanged
            | PreservationVerdict::TriviallyRestated
    )
}

// -- whole-submission context integrity ---------------------------------

/// Filling only the `sorry` leaves the given context intact.
#[test]
fn filling_the_sorry_leaves_context_intact() {
    let context = "\
/-- The helper is documented. -/
lemma helper (a : Nat) : a + 0 = a := by simp

theorem main (n : Nat) : n + 0 = n := by sorry
";
    let submitted = "\
/-- The helper is documented. -/
lemma helper (a : Nat) : a + 0 = a := by simp

theorem main (n : Nat) : n + 0 = n := by
  exact helper n
";
    let r = check_context_preserved(context, submitted, "main");
    assert!(r.intact, "{:?}", r.findings);
    assert!(r.changes.is_empty());
    assert!(r.into_scan_report().clean);
}

/// THE MINED FAILURE: the docstring is stripped off a supplied prerequisite.
/// The signature check sees nothing wrong; the context check does.
#[test]
fn stripped_docstring_on_given_lemma_is_reported() {
    let context = "\
/-- The helper is documented. -/
lemma helper (a : Nat) : a + 0 = a := by simp

theorem main (n : Nat) : n + 0 = n := by sorry
";
    let submitted = "\
lemma helper (a : Nat) : a + 0 = a := by simp

theorem main (n : Nat) : n + 0 = n := by exact helper n
";
    // The existing signature check is blind to this — and stays blind.
    let sig = check_statement_preserved("theorem main (n : Nat) : n + 0 = n", submitted);
    assert!(sig.preserved, "signature check must be unaffected: {sig:?}");

    let r = check_context_preserved(context, submitted, "main");
    assert!(!r.intact);
    assert_eq!(r.changes.len(), 1, "{:?}", r.changes);
    assert_eq!(r.changes[0].kind, ContextChangeKind::Modified);
    assert_eq!(r.changes[0].name, "helper");
    assert!(r.findings[0].starts_with("CONTEXT_ALTERED:"));
    assert!(!r.into_scan_report().clean);
}

/// A rewritten non-target lemma is reported as modified.
#[test]
fn rewritten_non_target_lemma_is_reported() {
    let context = "lemma helper (a : Nat) : a + 0 = a := by simp\ntheorem main : True := by sorry\n";
    let submitted = "lemma helper (a : Nat) : a = a := by rfl\ntheorem main : True := by trivial\n";
    let r = check_context_preserved(context, submitted, "main");
    assert!(!r.intact);
    assert!(r
        .changes
        .iter()
        .any(|c| c.name == "helper" && c.kind == ContextChangeKind::Modified));
}

/// A removed prerequisite and an added declaration each get their own kind.
#[test]
fn removed_and_added_declarations_are_distinguished() {
    let context = "lemma a1 : True := trivial\nlemma a2 : True := trivial\ntheorem main : True := by sorry\n";
    let submitted = "lemma a1 : True := trivial\nlemma brand_new : True := trivial\ntheorem main : True := by trivial\n";
    let r = check_context_preserved(context, submitted, "main");
    assert!(!r.intact);
    assert!(r
        .changes
        .iter()
        .any(|c| c.name == "a2" && c.kind == ContextChangeKind::Removed));
    assert!(r
        .changes
        .iter()
        .any(|c| c.name == "brand_new" && c.kind == ContextChangeKind::Added));
    assert!(r.findings.iter().all(|f| f.starts_with("CONTEXT_ALTERED:")));
}

/// Reindentation / rewrapping alone is tolerated; only real text changes fire.
#[test]
fn reformatting_is_tolerated() {
    let context = "lemma helper (a : Nat) : a + 0 = a := by simp\ntheorem main : True := by sorry\n";
    let submitted =
        "lemma helper\n    (a : Nat)\n    : a + 0 = a := by\n  simp\ntheorem main : True := by trivial\n";
    let r = check_context_preserved(context, submitted, "main");
    assert!(r.intact, "{:?}", r.changes);
}

/// The preamble (imports / `open`) is given material too.
#[test]
fn changed_preamble_is_reported() {
    let context = "import Mathlib.Data.Nat.Basic\n\ntheorem main : True := by sorry\n";
    let submitted = "import Mathlib\nopen Nat\n\ntheorem main : True := by trivial\n";
    let r = check_context_preserved(context, submitted, "main");
    assert!(!r.intact);
    assert!(r
        .changes
        .iter()
        .any(|c| c.name == "<preamble>" && c.kind == ContextChangeKind::Modified));
}

/// The target itself is excluded: the model rewriting its OWN proof body (and
/// even its attributes) is never a context change.
#[test]
fn target_declaration_is_excluded_from_the_diff() {
    let context = "theorem main (n : Nat) : n = n := by sorry\n";
    let submitted = "theorem main (n : Nat) : n = n := by\n  induction n <;> rfl\n";
    let r = check_context_preserved(context, submitted, "main");
    assert!(r.intact, "{:?}", r.changes);
    // And the convenience wrapper derives the same target from the canonical.
    let w = check_context_preserved_for("theorem main (n : Nat) : n = n", context, submitted);
    assert!(w.intact, "{:?}", w.changes);
    assert_eq!(w.target, "main");
}

/// Deterministic and panic-free on non-ASCII / degenerate input.
#[test]
fn context_integrity_is_deterministic_and_panic_free() {
    let ctx = "/-- π -/\nlemma β : ∀ x, x = x := by simp\ntheorem main : True := by sorry\n";
    let sub = "lemma β : ∀ x, x = x := by simp\ntheorem main : True := by trivial\n";
    assert_eq!(
        check_context_preserved(ctx, sub, "main"),
        check_context_preserved(ctx, sub, "main")
    );
    let _ = check_context_preserved("", "", "main");
    let _ = check_context_preserved("≤∞λ", "@[", "main");
    let _ = check_context_preserved_for("", "", "");
}

// -- splicing the canonical statement ------------------------------------

/// The canonical header is used verbatim; the model's drifted statement is
/// discarded rather than compared.
#[test]
fn splice_uses_the_canonical_header_and_the_model_body() {
    let canonical = "theorem main (n : Nat) (h : n > 0) : n ≥ 1";
    // The model WEAKENED the statement (dropped `h`) — a drift the comparison
    // check flags; the splice makes it structurally irrelevant.
    let model = "theorem main (n : Nat) : n ≥ 1 := by\n  omega\n";
    let out = splice_canonical_statement(canonical, model);
    assert_eq!(out.verdict, SpliceVerdict::Spliced);
    let spliced = out.spliced.unwrap();
    assert!(
        spliced.starts_with("theorem main (n : Nat) (h : n > 0) : n ≥ 1 := by"),
        "{spliced}"
    );
    assert!(spliced.contains("omega"));
    assert!(!spliced.contains("theorem main (n : Nat) : n ≥ 1"));
    // The comparison check still reports the drift, unchanged.
    assert_eq!(
        check_statement_preserved(canonical, model).verdict,
        PreservationVerdict::BindersChanged
    );
}

/// An invented preamble in the model output never reaches the splice.
#[test]
fn splice_drops_an_invented_preamble() {
    let canonical = "theorem main : True";
    let model = "import Evil\nopen Backdoor\ntheorem main : True := by trivial\n";
    let out = splice_canonical_statement(canonical, model);
    let spliced = out.spliced.unwrap();
    assert!(!spliced.contains("import"));
    assert!(!spliced.contains("Backdoor"));
}

/// HOLE 2 FIXED: an auxiliary theorem declared BEFORE the target does not
/// garble the splice (the mined regex spliced the FIRST `:= by`).
#[test]
fn splice_skips_an_auxiliary_declaration_before_the_target() {
    let canonical = "theorem main (n : Nat) : n = n";
    let model = "\
theorem aux : True := by
  trivial
theorem main (n : Nat) : n = n := by
  rfl
";
    let out = splice_canonical_statement(canonical, model);
    assert_eq!(out.verdict, SpliceVerdict::Spliced);
    let spliced = out.spliced.as_ref().unwrap();
    // The AUXILIARY body must NOT be what got spliced on.
    assert!(spliced.contains("rfl"), "{spliced}");
    assert!(!spliced.contains("trivial"), "garbled splice: {spliced}");
    // The auxiliary is reported, not silently swallowed.
    assert_eq!(out.preamble.len(), 1);
    assert_eq!(out.preamble[0].name, "aux");
    assert_eq!(out.preamble[0].position, "before");
    assert!(out.findings.iter().any(|f| f.contains("auxiliary")));
    // Opt-in re-attachment is available and explicit.
    let with_pre = out.spliced_with_preamble().unwrap();
    assert!(with_pre.contains("theorem aux"));
    assert!(with_pre.contains("theorem main (n : Nat) : n = n := by"));
}

/// HOLE 1 FIXED: a trailing top-level declaration is DROPPED and reported,
/// not kept verbatim and unaudited.
#[test]
fn splice_drops_and_reports_a_trailing_declaration() {
    let canonical = "theorem main : True";
    let model = "\
theorem main : True := by
  trivial
theorem backdoor : False := by sorry
";
    let out = splice_canonical_statement(canonical, model);
    let spliced = out.spliced.unwrap();
    assert!(!spliced.contains("backdoor"), "unaudited tail rode along: {spliced}");
    assert!(!spliced.contains("sorry"));
    assert!(out
        .discarded_tail
        .iter()
        .any(|d| d.name == "backdoor" && d.position == "after"));
    assert!(out.findings.iter().any(|f| f.contains("DROPPED")));
}

/// HOLE 1, the non-declaration half: trailing column-0 commands (`axiom`,
/// `attribute`, `#eval`) are cut too, since they carry no decl keyword.
#[test]
fn splice_cuts_trailing_column_zero_commands() {
    let canonical = "theorem main : True";
    let model = "\
theorem main : True := by
  trivial
axiom cheat : False
#eval 1
";
    let out = splice_canonical_statement(canonical, model);
    let spliced = out.spliced.unwrap();
    assert!(!spliced.contains("axiom"), "{spliced}");
    assert!(!spliced.contains("#eval"), "{spliced}");
    assert!(out
        .discarded_tail
        .iter()
        .any(|d| d.name == "<trailing>" && d.source.contains("axiom cheat")));
}

/// A term-mode proof is reproduced as term mode, not mangled into `:= by`.
#[test]
fn splice_preserves_term_mode_proofs() {
    let canonical = "theorem main (n : Nat) : n = n";
    let model = "theorem main (n : Nat) : n = n := rfl\n";
    let out = splice_canonical_statement(canonical, model);
    assert_eq!(out.spliced.as_deref(), Some("theorem main (n : Nat) : n = n := rfl\n"));
}

/// Fail-closed verdicts produce no splice.
#[test]
fn splice_fails_closed() {
    assert_eq!(
        splice_canonical_statement("-- no theorem here", "theorem main : True := trivial")
            .verdict,
        SpliceVerdict::CanonicalUnparsable
    );
    let missing = splice_canonical_statement("theorem main : True", "theorem other : True := trivial");
    assert_eq!(missing.verdict, SpliceVerdict::TargetNotFound);
    assert!(missing.spliced.is_none());
    let bodyless = splice_canonical_statement("theorem main : True", "theorem main : True");
    assert_eq!(bodyless.verdict, SpliceVerdict::NoProofBody);
    assert!(bodyless.spliced.is_none());
    let empty_by = splice_canonical_statement("theorem main : True", "theorem main : True := by\n");
    assert_eq!(empty_by.verdict, SpliceVerdict::NoProofBody);
    assert!(empty_by.spliced_with_preamble().is_none());
}

/// The splice is deterministic and panic-free on non-ASCII / degenerate input.
#[test]
fn splice_is_deterministic_and_panic_free() {
    let canonical = "theorem β (x : ℕ) : x ≡ x";
    let model = "theorem β (x : ℕ) : True := by\n  simp\n";
    assert_eq!(
        splice_canonical_statement(canonical, model),
        splice_canonical_statement(canonical, model)
    );
    let _ = splice_canonical_statement("", "");
    let _ = splice_canonical_statement("theorem t : ⊤", "theorem t := by λ π");
}

/// The context and splice checks are ADDITIVE: neither perturbs an existing verdict.
#[test]
fn additive_checks_do_not_perturb_existing_verdicts() {
    let canonical = "theorem main (n : Nat) (h : n > 0) : n ≥ 1";
    let context = "lemma helper : True := trivial\ntheorem main (n : Nat) (h : n > 0) : n ≥ 1 := by sorry\n";
    let submitted = "theorem main (n : Nat) : n ≥ 1 := by omega\n";
    let before = check_statement_preserved(canonical, submitted);
    let _ = check_context_preserved(context, submitted, "main");
    let _ = splice_canonical_statement(canonical, submitted);
    let after = check_statement_preserved(canonical, submitted);
    assert_eq!(before, after);
    assert_eq!(after.verdict, PreservationVerdict::BindersChanged);
}

/// Identical input yields identical results across all three entry points.
#[test]
fn results_are_deterministic() {
    let canonical = "theorem T (n : Nat) (h : n > 0) : n ≥ 1";
    let submitted = "\
-- with a sorry and an apply?
theorem T (n : Nat) : n ≥ 1 := by
  apply?
  sorry
";
    let a = check_statement_preserved(canonical, submitted);
    let b = check_statement_preserved(canonical, submitted);
    assert_eq!(a, b);

    let ha = scan_escape_hatches(submitted);
    let hb = scan_escape_hatches(submitted);
    assert_eq!(ha, hb);
    // Findings ordered by line.
    let lines: Vec<usize> = ha.iter().map(|h| h.line).collect();
    let mut sorted = lines.clone();
    sorted.sort();
    assert_eq!(lines, sorted);

    let errors = vec![LeanError::new(3, "e"), LeanError::new(1, "e")];
    assert_eq!(
        format_error_spans(submitted, &errors),
        format_error_spans(submitted, &errors)
    );
}

#[test]
fn context_report_never_names_the_target_and_prefixes_findings() {
    let context = "-- header\ndef helper : Nat := 1\n\ntheorem main : True := sorry\n";
    let submitted = "-- other header\ndef helper : Nat := 2\n\ntheorem main : False := trivial\n\nlemma extra : True := trivial\n";
    let r = check_context_preserved(context, submitted, "main");
    assert_eq!(r.target, "main");
    assert!(!r.intact);
    assert_eq!(r.findings.len(), r.changes.len());
    assert!(r.changes.iter().all(|c| c.name != "main"));
    assert!(r.findings.iter().all(|f| f.starts_with("CONTEXT_ALTERED:")));
    assert!(r.changes.iter().any(|c| c.name == "helper" && c.kind == ContextChangeKind::Modified));
    assert!(r.changes.iter().any(|c| c.name == "extra" && c.kind == ContextChangeKind::Added));
}
