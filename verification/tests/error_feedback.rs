use theoremata_prover::error_feedback::{
    can_parse, can_render_feedback, elide, parse_diagnostics, render_feedback, render_one,
    FeedbackConfig, Severity, ERROR_CLOSE, ERROR_OPEN, TRUNCATION_MARKER,
};
use theoremata_prover::formal::FormalSystem;

const SRC: &str = "import Mathlib\n\ntheorem foo (n : Nat) : n + 0 = n := by\n  induction n with\n  | zero => rfl\n  | succ k ih => exact bogus\n";

#[test]
fn single_lean_error_renders_context_and_delimiters() {
    let raw = "Generated.lean:6:23: error: unknown identifier 'bogus'";
    let r = render_feedback(FormalSystem::Lean, raw, SRC, &FeedbackConfig::default());
    assert!(r.parsed, "a standard Lean header must parse");
    assert_eq!(r.diagnostics.len(), 1);
    let d = &r.diagnostics[0];
    assert_eq!(d.line, Some(6));
    assert_eq!(d.col_start, Some(24));
    assert_eq!(d.severity, Severity::Error);
    assert!(d.goal_state_slot.is_none(), "the seam stays unpopulated");
    assert!(r.text.contains(ERROR_OPEN) && r.text.contains(ERROR_CLOSE));
    assert!(
        r.text.contains("<error>bogus</error>"),
        "column span must be delimited inline: {}",
        r.text
    );
    assert!(r.text.contains("theorem foo"));
    assert!(r.text.contains("| zero => rfl"));
    assert!(r.text.contains("unknown identifier 'bogus'"));
    assert!(!r.text.contains("import Mathlib"), "{}", r.text);
}

#[test]
fn a_long_span_is_elided_with_the_truncation_marker() {
    let src: String = (1..=40).map(|i| format!("line {i} of the proof\n")).collect();
    let raw = "Generated.agda:10,1-30,5: nested module error";
    let r = render_feedback(FormalSystem::Agda, raw, &src, &FeedbackConfig::default());
    assert!(r.parsed);
    let d = &r.diagnostics[0];
    assert_eq!((d.line, d.end_line), (Some(10), Some(30)));
    assert!(r.text.contains(TRUNCATION_MARKER), "a long span must elide: {}", r.text);
    assert!(r.text.contains("line 10 of the proof"));
    assert!(r.text.contains("line 30 of the proof"));
    assert!(!r.text.contains("line 20 of the proof"), "{}", r.text);
}

#[test]
fn more_than_max_errors_appends_the_true_omitted_count() {
    let raw: String = (1..=11).map(|i| format!("Generated.lean:{i}:1: error: problem {i}\n")).collect();
    let src: String = (1..=11).map(|i| format!("stmt{i}\n")).collect();
    let cfg = FeedbackConfig::default();
    let r = render_feedback(FormalSystem::Lean, &raw, &src, &cfg);
    assert_eq!(r.diagnostics.len(), 11, "all diagnostics stay structured");
    assert_eq!(r.omitted, 3);
    assert!(r.text.contains("... [Omitted 3 more errors] ..."), "{}", r.text);
    assert!(r.text.contains("problem 8"));
    assert!(!r.text.contains("problem 9"), "{}", r.text);
}

#[test]
fn metamath_error_line_parses() {
    let raw = "?Error on line 12 of file \"Generated.mm\": Proof of \"foo\" does not verify.\nAll proofs in the database were not verified.";
    let src: String = (1..=20).map(|i| format!("step{i} $.\n")).collect();
    let r = render_feedback(FormalSystem::Metamath, raw, &src, &FeedbackConfig::default());
    assert!(r.parsed, "a `?Error` line must parse: {}", r.text);
    assert_eq!(r.diagnostics.len(), 1);
    let d = &r.diagnostics[0];
    assert_eq!(d.severity, Severity::Error);
    assert_eq!(d.line, Some(12));
    assert!(d.message.contains("does not verify"));
    assert!(r.text.contains("step12 $."));
    let w = parse_diagnostics(FormalSystem::Metamath, "?Warning: proof is incomplete.");
    assert_eq!(w[0].severity, Severity::Warning);
}

#[test]
fn unparseable_garbage_degrades_to_truncated_passthrough() {
    let garbage = "\u{1f4a5} segfault at 0xdeadbeef\n\u{ff}\u{fe}binary noise\n";
    let r = render_feedback(FormalSystem::Lean, garbage, SRC, &FeedbackConfig::default());
    assert!(!r.parsed, "nothing should have parsed");
    assert!(r.diagnostics.is_empty());
    assert!(r.text.contains("raw passthrough, truncated"));
    assert!(r.text.contains("segfault at 0xdeadbeef"));

    let flood: String = (1..500).map(|i| format!("noise {i}\n")).collect();
    let r2 = render_feedback(FormalSystem::Lean, &flood, SRC, &FeedbackConfig::default());
    assert!(!r2.parsed);
    assert!(r2.text.contains(TRUNCATION_MARKER));
    assert!(r2.text.lines().count() < 60, "passthrough must be bounded");

    let r3 = render_feedback(FormalSystem::Lean, "", "", &FeedbackConfig::default());
    assert!(!r3.text.is_empty());
}

#[test]
fn out_of_range_positions_clamp_instead_of_panicking() {
    let raw = "Generated.lean:9999:9999: error: phantom";
    let r = render_feedback(FormalSystem::Lean, raw, SRC, &FeedbackConfig::default());
    assert!(r.parsed);
    assert!(r.text.contains("phantom"));
    let uni = "theorem β : ∀ x, x = x := by\n  exact λ y => rfl\n";
    let raw2 = "Generated.lean:1:9: error: unicode span";
    let r2 = render_feedback(FormalSystem::Lean, raw2, uni, &FeedbackConfig::default());
    assert!(r2.text.contains(ERROR_OPEN));
}

#[test]
fn rendering_is_byte_stable_for_the_same_input() {
    let raw = "Generated.lean:6:20: error: unknown identifier 'bogus'\nGenerated.lean:4:3: warning: unused variable";
    let cfg = FeedbackConfig::default();
    let a = render_feedback(FormalSystem::Lean, raw, SRC, &cfg);
    let b = render_feedback(FormalSystem::Lean, raw, SRC, &cfg);
    assert_eq!(a.text, b.text, "rendering must be deterministic");
    assert_eq!(a.diagnostics, b.diagnostics);
    assert_eq!(a.text.as_bytes(), b.text.as_bytes());
    assert_eq!(a.diagnostics[0].line, Some(6));
    assert_eq!(a.diagnostics[1].line, Some(4));
    assert_eq!(a.diagnostics[1].severity, Severity::Warning);
}

#[test]
fn rocq_and_isabelle_locators_parse() {
    let rocq = "File \"Generated.v\", line 12, characters 4-9:\nError: The reference bogus was not found.";
    let d = parse_diagnostics(FormalSystem::Rocq, rocq);
    assert_eq!(d.len(), 1);
    assert_eq!(d[0].line, Some(12));
    assert_eq!((d[0].col_start, d[0].col_end), (Some(4), Some(9)));

    let isa = "*** Undefined fact: \"bogus\"\n*** At command \"by\" (line 7 of \"Generated.thy\")";
    let d = parse_diagnostics(FormalSystem::Isabelle, isa);
    assert_eq!(d.len(), 1, "the `At command` line locates the block: {d:?}");
    assert_eq!(d[0].line, Some(7));
    assert!(d[0].message.contains("Undefined fact"));
}

#[test]
fn goal_state_slot_renders_when_a_caller_populates_it() {
    let mut d = parse_diagnostics(FormalSystem::Lean, "Generated.lean:6:20: error: unsolved goals");
    d[0].goal_state_slot = Some("n : Nat\n⊢ n + 0 = n".into());
    let src_lines: Vec<&str> = SRC.lines().collect();
    let text = render_one(&src_lines, &d[0], &FeedbackConfig::default(), 1);
    assert!(text.contains("goal state:"));
    assert!(text.contains("⊢ n + 0 = n"));
}

#[test]
fn elide_keeps_a_balanced_head_and_tail() {
    let lines: Vec<String> = (1..=10).map(|i| i.to_string()).collect();
    let out = elide(lines.clone(), 6);
    assert_eq!(out.len(), 7, "6 kept lines + 1 marker");
    assert_eq!(out[3], TRUNCATION_MARKER);
    assert_eq!(out[0], "1");
    assert_eq!(out[6], "10");
    assert_eq!(elide(lines.clone(), 20), lines);
    assert_eq!(elide(lines.clone(), 0), lines);
}

#[test]
fn exact_single_line_rendering() {
    let src = "a\nbb\nccc\n";
    let raw = "F.lean:2:0: error: oops";
    let r = render_feedback(FormalSystem::Lean, raw, src, &FeedbackConfig::default());
    assert_eq!(
        r.text,
        "lean checker reported 1 diagnostic(s):\n\n-- error 1 at line 2, column 1 --\n1 | a\n2 | <error>bb</error>\n3 | ccc\nmessage: oops\n"
    );
}

#[test]
fn multi_line_region_uses_delimiter_lines() {
    let src = "l1\nl2\nl3\n";
    let raw = "G.agda:1,1-2,3: bad";
    let r = render_feedback(FormalSystem::Agda, raw, src, &FeedbackConfig::default());
    assert_eq!(
        r.text,
        "agda checker reported 1 diagnostic(s):\n\n-- error 1 at line 1, columns 1-3 --\n<error>\n1 | l1\n2 | l2\n</error>\n3 | l3\nmessage: bad\n"
    );
}

#[test]
fn lean_continuation_lines_join_the_message() {
    let d = parse_diagnostics(FormalSystem::Lean, "F.lean:3:4: error: unsolved goals\n  n : Nat  \n\nerror: whole file\n");
    assert_eq!(d.len(), 2);
    assert_eq!(d[0].message, "unsolved goals\n  n : Nat");
    assert_eq!(d[0].col_start, Some(5));
    assert_eq!(d[1].message, "whole file");
    assert_eq!(d[1].line, None);
}

#[test]
fn generic_fallback_for_candle() {
    let d = parse_diagnostics(FormalSystem::Candle, "Exception: Failure at line 12\nall fine\nWARNING here\n");
    assert_eq!(d.len(), 2);
    assert_eq!(d[0].severity, Severity::Error);
    assert_eq!(d[0].line, Some(12));
    assert_eq!(d[1].severity, Severity::Warning);
    assert_eq!(d[1].line, None);
}

#[test]
fn rocq_warning_and_syntax_error() {
    let d = parse_diagnostics(FormalSystem::Rocq, "Warning: deprecated\nSyntax error: ')' expected\n");
    assert_eq!(d.len(), 2);
    assert_eq!(d[0].severity, Severity::Warning);
    assert_eq!(d[0].line, None);
    assert_eq!(d[1].severity, Severity::Error);
    assert_eq!(d[1].message, "')' expected");
}

#[test]
fn empty_output_notice() {
    let r = render_feedback(FormalSystem::Rocq, "  \n\n", "", &FeedbackConfig::default());
    assert_eq!(r.text, "[checker produced no output]\n");
    assert_eq!(r.omitted, 0);
}

#[test]
fn max_column_lean_output_is_refused_up_front() {
    let raw = "F.lean:1:18446744073709551615: error: x";
    assert!(!can_parse(FormalSystem::Lean, raw));
    assert!(!can_render_feedback(FormalSystem::Lean, raw, "a\n", &FeedbackConfig::default()));
    assert!(can_parse(FormalSystem::Agda, raw));
    assert!(can_render_feedback(FormalSystem::Lean, "F.lean:1:2: error: x", "a\n", &FeedbackConfig::default()));
}
