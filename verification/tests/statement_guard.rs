use theoremata_prover::statement_guard::{
    definitions_preserved, guard_lean_round_trip, headers_preserved, restore_statements,
    signature_covers, snapshot_definitions, snapshot_headers, starts_with_word, strip_comments,
};

#[test]
fn detects_deleted_theorem() {
    let before = "theorem T (n : Nat) : n = n := by sorry";
    let after = "def helper : True := trivial";
    let report = guard_lean_round_trip(before, after);
    assert!(!report.preserved);
    assert_eq!(report.missing, vec!["T".to_string()]);
}

#[test]
fn accepts_unchanged_header() {
    let src = "theorem T (n : Nat) : n = n := by exact rfl";
    let report = guard_lean_round_trip(src, src);
    assert!(report.preserved);
}

#[test]
fn restores_a_weakened_statement_keeping_the_body() {
    let before = "theorem T (n : Nat) (h : n > 0) : n = n := by sorry";
    let after = "theorem T (n : Nat) : n = n := by exact rfl";
    let restore = restore_statements(before, after);
    assert_eq!(restore.rewritten, vec!["T".to_string()]);
    assert!(restore.reappended.is_empty());
    assert!(restore.restored_src.contains("(h : n > 0)"));
    assert!(restore.restored_src.contains(":= by exact rfl"));
    let report = guard_lean_round_trip(before, &restore.restored_src);
    assert!(report.preserved);
}

#[test]
fn reappends_a_deleted_statement_as_sorry() {
    let before = "theorem T (n : Nat) : n = n := by sorry";
    let after = "def helper : True := trivial";
    let restore = restore_statements(before, after);
    assert_eq!(restore.reappended, vec!["T".to_string()]);
    assert!(restore.restored_src.contains("theorem T"));
    assert!(restore.restored_src.contains(":= by sorry"));
    assert!(restore.restored_src.contains("def helper"));
    let report = guard_lean_round_trip(before, &restore.restored_src);
    assert!(report.preserved);
}

#[test]
fn header_snapshot_alone_is_blind_to_a_body_change() {
    let before = "def A : Nat := 4";
    let after = "def A : Nat := 5";
    assert_eq!(snapshot_headers(before), snapshot_headers(after));
}

#[test]
fn unchanged_definition_passes() {
    let src = "def A : Nat := 4\ntheorem T : A = 4 := by rfl\n";
    let report = guard_lean_round_trip(src, src);
    assert!(report.preserved);
    assert!(report.definitions.preserved);
    assert_eq!(report.definitions.before.len(), 1);
    assert_eq!(report.definitions.before[0].name, "A");
}

#[test]
fn changed_definition_body_is_caught() {
    let before = "def A : Nat := 4\ntheorem T : A = 4 := by rfl\n";
    let after = "def A : Nat := 5\ntheorem T : A = 4 := by rfl\n";
    let report = guard_lean_round_trip(before, after);
    assert!(!report.preserved, "a redefined `def` must not pass");
    assert_eq!(report.definitions.changed, vec!["A".to_string()]);
    assert!(report.missing.is_empty());
    assert!(report.weakened.is_empty());
}

#[test]
fn changed_untyped_definition_body_is_caught() {
    let report = guard_lean_round_trip("def A := 4\n", "def A := 5\n");
    assert!(!report.preserved);
    assert_eq!(report.definitions.changed, vec!["A".to_string()]);
}

#[test]
fn reformatted_identical_definition_passes() {
    let before = "def twice (n : Nat) : Nat := n + n\n";
    let after = "-- a doc line\ndef twice (n : Nat) : Nat :=\n    n + n   /- trailing note -/\n";
    let report = guard_lean_round_trip(before, after);
    assert!(
        report.definitions.preserved,
        "reformatting must not read as drift: {:?}",
        report.definitions.changed
    );
    assert!(report.preserved);
}

#[test]
fn multi_line_definition_body_change_is_caught() {
    let before = "def f (n : Nat) : Nat :=\n  let k := n + 1\n  k * 2\n\ntheorem T : True := trivial\n";
    let after = "def f (n : Nat) : Nat :=\n  let k := n + 1\n  k * 3\n\ntheorem T : True := trivial\n";
    let report = guard_lean_round_trip(before, after);
    assert_eq!(report.definitions.changed, vec!["f".to_string()]);
}

#[test]
fn changed_theorem_proof_body_does_not_trip_the_definition_check() {
    let before = "def A : Nat := 4\ntheorem T : A = A := by sorry\n";
    let after = "def A : Nat := 4\ntheorem T : A = A := by\n  simp\n  rfl\n";
    let report = guard_lean_round_trip(before, after);
    assert!(
        report.definitions.preserved,
        "theorem bodies are proofs: {:?}",
        report.definitions.changed
    );
    assert!(report.preserved);
    assert_eq!(report.definitions.before.len(), 1);
}

#[test]
fn removed_definition_is_reported() {
    let report = guard_lean_round_trip("def A : Nat := 4\n", "theorem T : True := trivial\n");
    assert!(!report.preserved);
    assert_eq!(report.definitions.removed, vec!["A".to_string()]);
}

#[test]
fn duplicate_definition_names_are_ambiguous() {
    let src = "def A : Nat := 4\ndef A : Nat := 4\n";
    let report = guard_lean_round_trip(src, src);
    assert!(!report.preserved);
    assert_eq!(report.definitions.ambiguous, vec!["A".to_string()]);
}

#[test]
fn other_definition_forms_are_covered() {
    let before = "abbrev B : Nat := 1\nstructure S where\n  x : Nat\n";
    let after = "abbrev B : Nat := 2\nstructure S where\n  x : Int\n";
    let report = guard_lean_round_trip(before, after);
    let mut changed = report.definitions.changed.clone();
    changed.sort();
    assert_eq!(changed, vec!["B".to_string(), "S".to_string()]);
}

#[test]
fn anonymous_instance_body_change_is_caught() {
    let before = "instance : Inhabited Nat where\n  default := 0\n";
    let after = "instance : Inhabited Nat where\n  default := 1\n";
    let report = guard_lean_round_trip(before, after);
    assert_eq!(report.definitions.changed, vec!["<anonymous instance #0>".to_string()]);
}

#[test]
fn modifiers_and_attributes_do_not_hide_a_definition() {
    let before = "@[simp] private noncomputable def A : Nat := 4\n";
    let after = "@[simp] private noncomputable def A : Nat := 5\n";
    let report = guard_lean_round_trip(before, after);
    assert_eq!(report.definitions.changed, vec!["A".to_string()]);
}

#[test]
fn word_boundaries_are_respected() {
    assert!(snapshot_definitions("-- definition of A\ntheorem T : True := trivial\n").is_empty());
    assert!(starts_with_word("def A", "def"));
    assert!(!starts_with_word("definition A", "def"));
}

#[test]
fn strip_comments_blanks_comments_and_keeps_lines() {
    let src = "a -- b\nc /- d /- e -/ f -/ g\n";
    let out = strip_comments(src);
    assert_eq!(out, "a     \nc                   g\n");
    assert_eq!(out.chars().count(), src.chars().count());
}

#[test]
fn header_fields_are_parsed() {
    let hs = snapshot_headers("  theorem foo (n : Nat)   :  n =  n := by simp\nlemma bar : True := trivial\n");
    assert_eq!(hs.len(), 2);
    assert_eq!(hs[0].kind, "theorem");
    assert_eq!(hs[0].name, "foo");
    assert_eq!(hs[0].signature, "(n : Nat) : n = n");
    assert_eq!(hs[1].kind, "lemma");
    assert_eq!(hs[1].name, "bar");
    assert_eq!(hs[1].signature, ": True");
}

#[test]
fn headers_without_signature_are_skipped() {
    assert!(snapshot_headers("theorem T := by simp\n").is_empty());
    assert!(snapshot_headers("theorem\n").is_empty());
}

#[test]
fn weakened_signature_is_reported() {
    let before = snapshot_headers("theorem T (h : P) : Q := by sorry");
    let after = snapshot_headers("theorem T : R := by sorry");
    let report = headers_preserved(&before, &after);
    assert!(!report.preserved);
    assert_eq!(report.weakened, vec!["T".to_string()]);
    assert!(report.missing.is_empty());
    assert!(report.definitions.preserved);
}

#[test]
fn signature_containment_counts_as_covered() {
    assert!(signature_covers("(n : Nat) : n = n", "(n :   Nat) : n = n"));
    assert!(signature_covers("(n : Nat) : n = n", "(m : Nat) (n : Nat) : n = n"));
    assert!(!signature_covers("(h : P) : Q", ": R"));
}

#[test]
fn definitions_compared_with_themselves_do_not_drift() {
    let ds = snapshot_definitions("def A := 1\ndef B := 2\n");
    let r = definitions_preserved(&ds, &ds);
    assert!(r.preserved);
    assert!(r.changed.is_empty() && r.removed.is_empty() && r.ambiguous.is_empty());
}

#[test]
fn definition_kind_change_is_drift() {
    let report = guard_lean_round_trip("def A := 1\n", "abbrev A := 1\n");
    assert_eq!(report.definitions.changed, vec!["A".to_string()]);
}

#[test]
fn restoring_a_source_against_itself_changes_nothing() {
    let src = "theorem A (n : Nat) : n = n := by rfl\r\nlemma B : True := trivial\n";
    let restore = restore_statements(src, src);
    assert!(restore.rewritten.is_empty());
    assert!(restore.reappended.is_empty());
    assert_eq!(restore.restored_src, "theorem A (n : Nat) : n = n := by rfl\nlemma B : True := trivial");
}

#[test]
fn restoring_keeps_unflagged_lines_and_reappends_in_order() {
    let before = "theorem A (n : Nat) : n = n := by rfl\ntheorem B : True := trivial\ntheorem C : 1 = 1 := rfl";
    let after = "theorem A (n : Nat) : True := trivial\n-- a note\ndef extra : Nat := 3";
    let restore = restore_statements(before, after);
    assert_eq!(restore.rewritten, vec!["A".to_string()]);
    assert_eq!(restore.reappended, vec!["B".to_string(), "C".to_string()]);
    assert_eq!(
        restore.restored_src,
        "theorem A (n : Nat) : n = n := trivial\n-- a note\ndef extra : Nat := 3\ntheorem B : True := by sorry\ntheorem C : 1 = 1 := by sorry\n"
    );
}

#[test]
fn round_trip_reports_a_changed_definition_body() {
    let r = guard_lean_round_trip("def A := 4\n", "def A := 5\n");
    assert!(!r.preserved);
    assert_eq!(r.definitions.changed, vec!["A".to_string()]);
    assert!(r.missing.is_empty());
    assert!(r.weakened.is_empty());
}
