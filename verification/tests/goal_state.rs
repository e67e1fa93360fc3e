use theoremata_prover::exec::Runner;
use theoremata_prover::goal_state::{parse_lean_goal_state, GoalState, Hyp, LeanGoalStateExtractor};

#[test]
fn single_goal_two_hyps_and_target() {
    let raw = "n : ℕ\nh : n > 0\n⊢ n ≥ 1\n";
    let state = parse_lean_goal_state(raw);
    assert_eq!(state.goals.len(), 1);
    let g = &state.goals[0];
    assert_eq!(
        g.hypotheses,
        vec![
            Hyp {
                names: vec!["n".into()],
                ty: "ℕ".into()
            },
            Hyp {
                names: vec!["h".into()],
                ty: "n > 0".into()
            },
        ]
    );
    assert_eq!(g.target, "n ≥ 1");
}

#[test]
fn multiple_names_on_one_hyp_line() {
    let raw = "a b c : ℤ\n⊢ a + b + c = c + b + a\n";
    let state = parse_lean_goal_state(raw);
    assert_eq!(state.goals.len(), 1);
    assert_eq!(
        state.goals[0].hypotheses,
        vec![Hyp {
            names: vec!["a".into(), "b".into(), "c".into()],
            ty: "ℤ".into()
        }]
    );
    assert_eq!(state.goals[0].target, "a + b + c = c + b + a");
}

#[test]
fn multi_goal_split_on_case_markers() {
    let raw = "case pos\nh : p\n⊢ q\n\ncase neg\nh : ¬p\n⊢ r\n";
    let state = parse_lean_goal_state(raw);
    assert_eq!(state.goals.len(), 2);
    assert_eq!(state.goals[0].target, "q");
    assert_eq!(state.goals[1].target, "r");
    assert_eq!(state.goals[0].hypotheses[0].ty, "p");
    assert_eq!(state.goals[1].hypotheses[0].ty, "¬p");
}

#[test]
fn multi_goal_split_on_blank_lines_without_case() {
    let raw = "n : ℕ\n⊢ P n\n\nm : ℕ\n⊢ Q m\n";
    let state = parse_lean_goal_state(raw);
    assert_eq!(state.goals.len(), 2);
    assert_eq!(state.goals[0].target, "P n");
    assert_eq!(state.goals[1].target, "Q m");
}

#[test]
fn ascii_turnstile_is_accepted() {
    let raw = "h : True\n|- False → True\n";
    let state = parse_lean_goal_state(raw);
    assert_eq!(state.goals.len(), 1);
    assert_eq!(state.goals[0].hypotheses[0].names, vec!["h".to_string()]);
    assert_eq!(state.goals[0].target, "False → True");
}

#[test]
fn no_goals_and_empty_parse_to_empty_state() {
    assert!(parse_lean_goal_state("").is_empty());
    assert!(parse_lean_goal_state("   \n  \n").is_empty());
    assert!(parse_lean_goal_state("no goals").is_empty());
    assert!(parse_lean_goal_state("Goals accomplished!").is_empty());
}

#[test]
fn garbage_input_degrades_to_empty_state_without_panic() {
    // No turnstile anywhere => no goals recovered => empty state.
    assert!(parse_lean_goal_state("asdf qwer zxcv").is_empty());
    assert!(parse_lean_goal_state("}{ ][ random :: ::: garbage").is_empty());
    // A colon-bearing garbage line with no turnstile is still dropped.
    assert!(parse_lean_goal_state("foo : bar\nbaz qux").is_empty());
}

#[test]
fn target_only_goal_has_no_hypotheses() {
    let state = parse_lean_goal_state("⊢ 2 + 2 = 4\n");
    assert_eq!(state.goals.len(), 1);
    assert!(state.goals[0].hypotheses.is_empty());
    assert_eq!(state.goals[0].target, "2 + 2 = 4");
}

#[test]
fn hyp_type_may_contain_colons() {
    // Only the FIRST colon splits names from type.
    let state = parse_lean_goal_state("f : A → B : Type\n⊢ True\n");
    assert_eq!(state.goals[0].hypotheses[0].names, vec!["f".to_string()]);
    assert_eq!(state.goals[0].hypotheses[0].ty, "A → B : Type");
}

#[test]
fn render_round_trips_shape_for_single_goal() {
    let raw = "n : ℕ\nh : n > 0\n⊢ n ≥ 1\n";
    let rendered = parse_lean_goal_state(raw).render();
    // Re-parsing the render yields the same structure.
    assert_eq!(parse_lean_goal_state(&rendered), parse_lean_goal_state(raw));
    assert!(rendered.contains("n : ℕ"));
    assert!(rendered.contains("⊢ n ≥ 1"));
}

#[test]
fn render_multi_goal_tags_cases_and_reparses() {
    let raw = "h : p\n⊢ q\n\nh : ¬p\n⊢ r\n";
    let parsed = parse_lean_goal_state(raw);
    let rendered = parsed.render();
    assert!(rendered.contains("case 1"));
    assert!(rendered.contains("case 2"));
    assert_eq!(parse_lean_goal_state(&rendered), parsed);
}

#[test]
fn extractor_renders_nonempty_state_to_some_and_empty_to_none() {
    // Exercise the sketch::GoalStateExtractor rendering seam directly, without
    // any live Lean, by driving the pure state → string path.
    let nonempty = parse_lean_goal_state("h : p\n⊢ q\n");
    assert!(!nonempty.is_empty());
    let rendered = nonempty.render();
    assert!(rendered.contains("⊢ q"));

    let empty = parse_lean_goal_state("no goals");
    assert!(empty.is_empty());
}

#[test]
fn probe_source_embeds_subgoal_and_attempt_as_data() {
    let src = LeanGoalStateExtractor::probe_source("P 0", "intro h\napply h");
    assert!(src.contains("import Mathlib"));
    assert!(src.contains("theorem __theoremata_probe__ : P 0 := by"));
    // Multi-line attempts are indented into the tactic block.
    assert!(src.contains("  intro h"));
    assert!(src.contains("  apply h"));
    assert!(src.contains("  trace_state"));
}

#[test]
fn the_extractor_hands_over_only_nonempty_states() {
    let nonempty = parse_lean_goal_state("h : p\n⊢ q\n");
    assert_eq!(LeanGoalStateExtractor::extract_from(&nonempty), Some("h : p\n⊢ q\n".to_string()));
    let empty = parse_lean_goal_state("no goals");
    assert_eq!(LeanGoalStateExtractor::extract_from(&empty), None);
}

#[test]
fn the_run_output_with_a_turnstile_is_parsed() {
    let from_err = LeanGoalStateExtractor::goal_state_from_run("", "error: unsolved goals\nx : ℕ\n⊢ x = x\n");
    assert_eq!(from_err.goals.len(), 1);
    assert_eq!(from_err.goals[0].target, "x = x");
    let from_out = LeanGoalStateExtractor::goal_state_from_run("⊢ True\n", "⊢ False\n");
    assert_eq!(from_out.goals[0].target, "True");
    let none = LeanGoalStateExtractor::goal_state_from_run("no goals", "warning");
    assert_eq!(none, GoalState::default());
}

#[test]
fn probe_source_is_exact() {
    let src = LeanGoalStateExtractor::probe_source("1 = 1", "rfl");
    assert_eq!(src, "import Mathlib\n\ntheorem __theoremata_probe__ : 1 = 1 := by\n  rfl\n  trace_state\n");
}

#[test]
fn extractor_construction() {
    let e = LeanGoalStateExtractor::new(Runner::Wsl { distro: "Ubuntu".into() }, "lake env lean");
    assert_eq!(e.lean, "lake env lean");
    assert_eq!(LeanGoalStateExtractor::native_with(None).lean, "lean");
    assert_eq!(LeanGoalStateExtractor::native_with(Some(" ")).lean, "lean");
    assert_eq!(LeanGoalStateExtractor::native_with(Some("/opt/lean")).lean, "/opt/lean");
    assert_eq!(LeanGoalStateExtractor::native_with(None).runner, Runner::Native);
}

#[test]
fn whitespace_is_exactly_unicode_white_space() {
    let mut c: u32 = 0;
    while c <= 0x10FFFF {
        if let Some(ch) = char::from_u32(c) {
            assert_eq!(theoremata_prover::text::char_is_whitespace(ch), ch.is_whitespace(), "U+{c:04X}");
        }
        c += 1;
    }
}
