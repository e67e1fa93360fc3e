use theoremata_prover::statement_preservation::{
    commented_escape_hatch_advisory, commented_escape_hatch_is_a_violation,
    commented_escape_hatches, decl_blocks, escape_hatch_scan_report, escape_hatches_clean, format_error_spans,
    scan_escape_hatches, scan_escape_hatches_with_policy, CommentPolicy, ContextChangeKind,
    LeanError, PreservationVerdict, SpliceVerdict, ESCAPE_HATCH_COMMENT_POLICY,
};

#[test]
fn search_tactics_and_native_decide_are_critical() {
    let code = "\
theorem T : True := by apply?
theorem U : True := by exact?
theorem V (n : Nat) : n = n := by rfl?
theorem W : 2 + 2 = 4 := by native_decide
";
    let hatches = scan_escape_hatches(code);
    assert!(!escape_hatches_clean(code));
    for rule in ["apply?", "exact?", "rfl?", "native_decide"] {
        assert!(
            hatches.iter().any(|h| h.rule == rule),
            "expected `{rule}` to be flagged: {hatches:?}"
        );
    }
}

#[test]
fn comments_and_strings_are_ignored_by_escape_scan() {
    let code = "\
-- this sorry is only a comment, and native_decide too
/- admit and apply? in a block comment -/
theorem T : String := \"sorry and exact? in a literal\"
";
    assert!(escape_hatches_clean(code), "{:?}", scan_escape_hatches(code));
}

#[test]
fn whole_token_matching_avoids_false_positives() {
    let code = "theorem T (h : True) : True := by apply h\n";
    assert!(escape_hatches_clean(code));
}

#[test]
fn comment_policy_is_code_only_and_predicate_agrees() {
    assert_eq!(ESCAPE_HATCH_COMMENT_POLICY, CommentPolicy::CodeOnly);
    assert!(
        !commented_escape_hatch_is_a_violation(),
        "policy: a comment is never executed by the kernel, so it cannot be a soundness violation"
    );
}

#[test]
fn policies_differ_only_on_commented_occurrences() {
    let code = "\
-- we deliberately avoid sorry here
theorem T : True := by trivial
";
    assert!(scan_escape_hatches_with_policy(code, CommentPolicy::CodeOnly).is_empty());
    let raw = scan_escape_hatches_with_policy(code, CommentPolicy::CodeAndComments);
    assert!(
        raw.iter().any(|h| h.rule == "sorry" && h.line == 1),
        "un-stripped matching flags the comment: {raw:?}"
    );
    assert!(escape_hatches_clean(code));
}

#[test]
fn real_hatches_are_not_advisory() {
    let code = "-- sorry in a comment\ntheorem T : True := by sorry\n";
    assert!(!escape_hatches_clean(code));
    let commented = commented_escape_hatches(code);
    assert!(
        commented.iter().all(|h| h.line == 1),
        "only the line-1 comment is advisory: {commented:?}"
    );
    assert!(scan_escape_hatches(code).iter().any(|h| h.line == 2));
}

#[test]
fn default_scan_equals_policy_scan() {
    let code = "-- sorry\ntheorem T : True := by admit\n/- native_decide -/\n";
    assert_eq!(
        scan_escape_hatches(code),
        scan_escape_hatches_with_policy(code, ESCAPE_HATCH_COMMENT_POLICY)
    );
}

#[test]
fn attributes_and_docstrings_bind_to_the_next_declaration() {
    let src = "\
import Foo

/-- doc -/
@[simp]
private lemma helper : True := trivial

theorem main : True := by sorry
";
    let (preamble, blocks) = decl_blocks(src);
    assert_eq!(preamble, "import Foo");
    assert_eq!(blocks.len(), 2);
    assert_eq!(blocks[0].name, "helper");
    assert!(blocks[0].text.starts_with("/-- doc -/"));
    assert!(blocks[0].text.contains("@[simp]"));
    assert_eq!(blocks[1].name, "main");
    assert!(blocks[1].text.starts_with("theorem main"));
}

#[test]
fn format_error_spans_marks_the_right_line() {
    let code = "line1\nline2\nline3\nline4\nline5";
    let errors = vec![LeanError::new(3, "unsolved goals")];
    let out = format_error_spans(code, &errors);
    assert!(out.contains("error at line 3: unsolved goals"));
    assert!(out.contains(">>>"));
    assert!(out.lines().any(|l| l.starts_with(">>>") && l.contains("line3")));
    assert!(out.lines().any(|l| l.starts_with("   ") && l.contains("line2")));
    assert!(out.lines().any(|l| l.starts_with("   ") && l.contains("line4")));
    assert!(out.contains("line1"));
    assert!(out.contains("line5"));
}

#[test]
fn format_error_spans_clamps_and_handles_out_of_range() {
    let code = "only1\nonly2";
    let out = format_error_spans(code, &[LeanError::new(1, "at top")]);
    assert!(out.lines().any(|l| l.starts_with(">>>") && l.contains("only1")));
    assert!(out.contains("only2"));
    let oor = format_error_spans(code, &[LeanError::new(99, "phantom")]);
    assert!(oor.contains("error at line 99: phantom"));
    assert!(oor.contains("out of range"));
    assert_eq!(format_error_spans(code, &[]), "");
}

#[test]
fn format_error_spans_orders_errors() {
    let code = "a\nb\nc\nd\ne\nf";
    let errors = vec![LeanError::new(5, "second"), LeanError::new(2, "first")];
    let out = format_error_spans(code, &errors);
    let first = out.find("first").unwrap();
    let second = out.find("second").unwrap();
    assert!(first < second, "line-2 error must render before line-5");
}

#[test]
fn clean_proof_has_no_escape_hatches() {
    let code = "theorem T (n : Nat) : n = n := by rfl\ntheorem U : True := by trivial\n";
    assert!(escape_hatches_clean(code));
    assert!(scan_escape_hatches(code).is_empty());
    assert!(escape_hatch_scan_report(code).clean);
}

#[test]
fn sorry_and_admit_are_critical() {
    let code = "theorem T : True := by sorry\ntheorem U : True := by admit\n";
    let hatches = scan_escape_hatches(code);
    assert!(!escape_hatches_clean(code));
    assert!(hatches.iter().any(|h| h.rule == "sorry" && h.line == 1));
    assert!(hatches.iter().any(|h| h.rule == "admit" && h.line == 2));
    let report = escape_hatch_scan_report(code);
    assert!(!report.clean);
    assert!(report.findings.iter().all(|f| f.contains("CRITICAL")));
}

#[test]
fn commented_hatches_are_advisory_not_gating() {
    let code = "-- sorry\ntheorem T : True := by trivial\n";
    let commented = commented_escape_hatches(code);
    assert_eq!(commented.len(), 1);
    assert_eq!(commented[0].rule, "sorry");
    assert_eq!(commented[0].line, 1);
    let advisory = commented_escape_hatch_advisory(code);
    assert_eq!(advisory.len(), 1);
    assert!(advisory[0].starts_with("ADVISORY (non-gating)"));
    assert!(escape_hatches_clean(code));
    assert!(escape_hatch_scan_report(code).clean);
}

#[test]
fn findings_are_ordered_by_line_then_rule() {
    let code = "theorem T : True := by\n  sorry\n  admit\ntheorem U : True := by admit; sorry\n";
    let hs = scan_escape_hatches(code);
    let keys: Vec<(usize, &str)> = hs.iter().map(|h| (h.line, h.rule)).collect();
    assert_eq!(keys, vec![(2, "sorry"), (3, "admit"), (4, "admit"), (4, "sorry")]);
}

#[test]
fn escape_hatch_detail_text() {
    let hs = scan_escape_hatches("example : True := by sorry");
    assert_eq!(hs.len(), 1);
    assert_eq!(hs[0].detail, "open goal admitted with `sorry` (no proof)");
}

#[test]
fn exact_error_span_rendering() {
    let out = format_error_spans("a\nb\nc", &[LeanError::new(2, "bad"), LeanError::new(0, "top")]);
    assert_eq!(
        out,
        "error at line 0: top\n    (line out of range; no source context)\n\nerror at line 2: bad\n    1 | a\n>>> 2 | b\n    3 | c\n"
    );
}

#[test]
fn verdict_tags() {
    assert!(PreservationVerdict::Preserved.is_preserved());
    assert!(PreservationVerdict::PreservedAlpha.is_preserved());
    assert!(!PreservationVerdict::Renamed.is_preserved());
    assert_eq!(PreservationVerdict::TriviallyRestated.tag(), "trivially_restated");
    assert_eq!(ContextChangeKind::Added.tag(), "added");
    assert_eq!(SpliceVerdict::NoProofBody.tag(), "no_proof_body");
}

#[test]
fn no_declarations_give_the_trimmed_preamble() {
    let (preamble, blocks) = decl_blocks("  import Foo\n-- theorem hidden : True\n");
    assert_eq!(preamble, "import Foo\n-- theorem hidden : True");
    assert!(blocks.is_empty());
}

#[test]
fn policy_scan_example_pins_rule_and_line() {
    let code = "-- we deliberately avoid sorry here\ntheorem T : True := by trivial\n";
    let raw: Vec<(&str, usize)> = scan_escape_hatches_with_policy(code, CommentPolicy::CodeAndComments)
        .iter()
        .map(|h| (h.rule, h.line))
        .collect();
    assert_eq!(raw, vec![("sorry", 1)]);
    assert_eq!(scan_escape_hatches_with_policy(code, CommentPolicy::CodeOnly), scan_escape_hatches(code));
}

#[test]
fn commented_hatches_are_raw_less_active() {
    let code = "-- sorry in a comment\ntheorem T : True := by sorry\n";
    let commented: Vec<(&str, usize)> = commented_escape_hatches(code).iter().map(|h| (h.rule, h.line)).collect();
    assert_eq!(commented, vec![("sorry", 1)]);
}
