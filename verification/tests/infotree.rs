use theoremata_prover::error_feedback::{parse_diagnostics, Diagnostic, Severity};
use theoremata_prover::formal::FormalSystem;
use theoremata_prover::infotree::{
    attach_goal_states, first_in_wrapper, normalize, render_node_goals, smallest_containing_node, smallest_containing_node_with_goals,
    GoalJson, InfoTree, Pos, Span, RawGoals, RawNode, RawNodeBody, RawPos, RawRange, RawSyntax, AFTER_HEADING,
    DEFAULT_GOAL_STATE_CAP, DIAGNOSTIC_COLUMN_BASE, DIAGNOSTIC_LINE_BASE, INFOTREE_COLUMN_BASE, INFOTREE_LINE_BASE,
    LINE_WEIGHT,
};

fn rpos(line: usize, column: usize) -> RawPos {
    RawPos { line: Some(line), column: Some(column) }
}

fn rrange(sl: usize, sc: usize, el: usize, ec: usize) -> RawRange {
    RawRange { start: Some(rpos(sl, sc)), finish: Some(rpos(el, ec)) }
}

fn many(goals: &[&str]) -> Option<RawGoals> {
    Some(RawGoals::Many(goals.iter().map(|s| s.to_string()).collect()))
}

/// `{"node": {"stx": {"range": r}, "goalsBefore": b, "goalsAfter": a}, "kids": kids}`
fn stx_node(r: Option<RawRange>, before: Option<RawGoals>, after: Option<RawGoals>, kids: Vec<RawNode>) -> RawNode {
    RawNode {
        node: Some(RawNodeBody { stx: Some(RawSyntax { range: r }), range: None, goals_before: before, goals_after: after }),
        inline: RawNodeBody::default(),
        kids,
        children: Vec::new(),
    }
}

/// `{"node": {"range": r, "goalsBefore": b, "goalsAfter": a}, "kids": kids}`
fn range_node(r: Option<RawRange>, before: Option<RawGoals>, after: Option<RawGoals>, kids: Vec<RawNode>) -> RawNode {
    RawNode {
        node: Some(RawNodeBody { stx: None, range: r, goals_before: before, goals_after: after }),
        inline: RawNodeBody::default(),
        kids,
        children: Vec::new(),
    }
}

/// The three-level fixture over lines 1..=10, ranges in infotree bases.
fn nested() -> InfoTree {
    let leaf = stx_node(Some(rrange(5, 2, 5, 8)), many(&["n : Nat\nh : n > 0\n⊢ inner"]), many(&["⊢ done"]), vec![]);
    let middle = stx_node(Some(rrange(4, 0, 6, 20)), many(&["n : Nat\n⊢ middle"]), None, vec![leaf]);
    let root = stx_node(Some(rrange(1, 0, 10, 0)), many(&["⊢ outer"]), None, vec![middle]);
    InfoTree::from_raw(&vec![root]).expect("fixture must normalize")
}

fn one_wide(goal: &str) -> InfoTree {
    InfoTree::from_raw(&vec![range_node(Some(rrange(1, 0, 50, 0)), many(&[goal]), None, vec![])]).unwrap()
}

fn lean_diag(line: usize, col: usize, msg: &str) -> Diagnostic {
    Diagnostic {
        system: FormalSystem::Lean,
        severity: Severity::Error,
        line: Some(line),
        end_line: None,
        col_start: Some(col),
        col_end: None,
        message: msg.to_string(),
        goal_state_slot: None,
    }
}

#[test]
fn columns_are_rebased_from_zero_to_one() {
    let tree = nested();
    let innermost = &tree.roots[0].kids[0].kids[0];
    let span = innermost.span.expect("range present");
    assert_eq!(span.start, Pos { line: 5, col: 3 });
    assert_eq!(span.end, Pos { line: 5, col: 9 });
    assert_eq!(INFOTREE_LINE_BASE, DIAGNOSTIC_LINE_BASE);
    assert_eq!(DIAGNOSTIC_COLUMN_BASE - INFOTREE_COLUMN_BASE, 1);
}

#[test]
fn innermost_containing_node_wins() {
    let tree = nested();
    let n = smallest_containing_node(&tree, 5, 4).expect("a node must contain 5:4");
    assert_eq!(n.goals_before, vec!["n : Nat\nh : n > 0\n⊢ inner".to_string()]);
    assert!(n.kids.is_empty(), "the innermost node is the leaf");
    let n = smallest_containing_node(&tree, 4, 1).unwrap();
    assert_eq!(n.goals_before, vec!["n : Nat\n⊢ middle".to_string()]);
    let n = smallest_containing_node(&tree, 9, 1).unwrap();
    assert_eq!(n.goals_before, vec!["⊢ outer".to_string()]);
}

#[test]
fn ties_break_by_the_documented_distance_score() {
    let wide_inner = range_node(Some(rrange(1, 0, 100, 0)), many(&["⊢ wide-inner"]), None, vec![]);
    let wide_outer = range_node(Some(rrange(1, 0, 100, 0)), many(&["⊢ wide-outer"]), None, vec![wide_inner]);
    let tight = range_node(Some(rrange(5, 1, 5, 3)), many(&["⊢ tight"]), None, vec![]);
    let tree = InfoTree::from_raw(&vec![wide_outer, tight]).unwrap();
    let n = smallest_containing_node(&tree, 5, 3).unwrap();
    assert_eq!(n.goals_before, vec!["⊢ tight".to_string()]);
    let n = smallest_containing_node(&tree, 50, 1).unwrap();
    assert_eq!(n.goals_before, vec!["⊢ wide-inner".to_string()]);
    let span = Span { start: Pos { line: 4, col: 1 }, end: Pos { line: 6, col: 1 } };
    let at = Pos { line: 5, col: 3 };
    assert_eq!(span.score(at), ((LINE_WEIGHT + 2) + (LINE_WEIGHT + 2)) as u128);
}

#[test]
fn a_position_outside_every_range_yields_none() {
    let tree = nested();
    assert!(smallest_containing_node(&tree, 999, 1).is_none());
    assert!(smallest_containing_node(&tree, 10, 5).is_none(), "past the end column");
    assert!(smallest_containing_node(&tree, 0, 1).is_none());
}

#[test]
fn nodes_without_ranges_are_skipped_but_their_kids_are_not() {
    let kid = range_node(Some(rrange(2, 0, 2, 5)), many(&["⊢ kid"]), None, vec![]);
    let root = range_node(None, many(&["⊢ rangeless"]), None, vec![kid]);
    let tree = InfoTree::from_raw(&vec![root]).unwrap();
    assert!(tree.roots[0].span.is_none(), "missing range => no span");
    let n = smallest_containing_node(&tree, 2, 2).expect("the kid is still reachable");
    assert_eq!(n.goals_before, vec!["⊢ kid".to_string()]);
}

#[test]
fn unknown_fields_and_alternate_shapes_are_tolerated() {
    // An unwrapped body whose goals are a single string, children under `children`.
    let raw = RawNode {
        node: None,
        inline: RawNodeBody {
            stx: None,
            range: Some(rrange(3, 4, 3, 9)),
            goals_before: Some(RawGoals::One("h : p\n⊢ q".to_string())),
            goals_after: None,
        },
        kids: Vec::new(),
        children: Vec::new(),
    };
    let tree = InfoTree::from_raw(&vec![raw]).expect("inline body must normalize");
    let n = smallest_containing_node(&tree, 3, 6).expect("3:6 is inside 3:5-3:10");
    assert_eq!(n.goals_before, vec!["h : p\n⊢ q".to_string()]);
}

#[test]
fn malformed_and_empty_json_never_panics_and_changes_nothing() {
    let mut diags = vec![lean_diag(5, 4, "unsolved goals")];
    let before = diags.clone();
    // No tree at all (text that is not an infotree).
    assert_eq!(attach_goal_states(&mut diags, None, 3), 0);
    assert_eq!(diags, before);
    // `[]`, `[{}]` and an empty wrapped list normalize to nothing.
    assert!(InfoTree::from_raw(&vec![]).is_none());
    assert!(InfoTree::from_raw(&vec![RawNode::default()]).is_none());
    let tree = InfoTree::from_raw(&vec![RawNode::default()]);
    assert_eq!(attach_goal_states(&mut diags, tree.as_ref(), 3), 0);
    assert_eq!(diags, before);
}

#[test]
fn goals_before_without_goals_after_still_populates() {
    let tree = InfoTree::from_raw(&vec![range_node(Some(rrange(2, 0, 2, 10)), many(&["n : Nat\n⊢ n + 0 = n"]), None, vec![])])
        .unwrap();
    let mut diags = vec![lean_diag(2, 3, "unsolved goals")];
    assert_eq!(attach_goal_states(&mut diags, Some(&tree), DEFAULT_GOAL_STATE_CAP), 1);
    let slot = diags[0].goal_state_slot.as_deref().expect("slot filled");
    assert!(slot.contains("n : Nat"), "{slot}");
    assert!(slot.contains("⊢ n + 0 = n"), "{slot}");
    assert!(!slot.contains(AFTER_HEADING), "no after-state to show: {slot}");

    let tree_after =
        InfoTree::from_raw(&vec![range_node(Some(rrange(2, 0, 2, 10)), None, many(&["n : Nat\n⊢ n + 0 = n"]), vec![])])
            .unwrap();
    let mut diags2 = vec![lean_diag(2, 3, "unsolved goals")];
    assert_eq!(attach_goal_states(&mut diags2, Some(&tree_after), 3), 1);
    let slot2 = diags2[0].goal_state_slot.as_deref().unwrap();
    assert!(slot2.starts_with(AFTER_HEADING), "{slot2}");
}

#[test]
fn the_cap_is_respected_and_the_first_cap_diagnostics_are_filled() {
    let tree = one_wide("⊢ everywhere");
    let mut diags: Vec<Diagnostic> = (1..=6).map(|i| lean_diag(i, 1, "boom")).collect();
    let filled = attach_goal_states(&mut diags, Some(&tree), DEFAULT_GOAL_STATE_CAP);
    assert_eq!(filled, 3);
    assert_eq!(DEFAULT_GOAL_STATE_CAP, 3);
    for d in &diags[..3] {
        assert!(d.goal_state_slot.is_some(), "the first 3 are filled");
    }
    for d in &diags[3..] {
        assert!(d.goal_state_slot.is_none(), "the rest are untouched");
    }
    let mut none = vec![lean_diag(1, 1, "boom")];
    assert_eq!(attach_goal_states(&mut none, Some(&tree), 0), 0);
    assert!(none[0].goal_state_slot.is_none());
}

#[test]
fn only_lean_positioned_unfilled_diagnostics_are_candidates() {
    let tree = one_wide("⊢ everywhere");
    let mut rocq = lean_diag(1, 1, "boom");
    rocq.system = FormalSystem::Rocq;
    let mut unpositioned = lean_diag(1, 1, "boom");
    unpositioned.line = None;
    let mut prefilled = lean_diag(1, 1, "boom");
    prefilled.goal_state_slot = Some("preserve me".into());

    let mut diags = vec![rocq, unpositioned, prefilled, lean_diag(2, 1, "boom")];
    assert_eq!(attach_goal_states(&mut diags, Some(&tree), 3), 1);
    assert!(diags[0].goal_state_slot.is_none(), "not Lean");
    assert!(diags[1].goal_state_slot.is_none(), "no position");
    assert_eq!(diags[2].goal_state_slot.as_deref(), Some("preserve me"));
    assert!(diags[3].goal_state_slot.is_some());
}

#[test]
fn a_rangeless_or_goalless_tightest_node_falls_back_to_the_nearest_state() {
    let leaf = range_node(Some(rrange(5, 0, 5, 4)), None, None, vec![]);
    let root = range_node(Some(rrange(1, 0, 9, 0)), many(&["⊢ outer"]), None, vec![leaf]);
    let tree = InfoTree::from_raw(&vec![root]).unwrap();
    let tightest = smallest_containing_node(&tree, 5, 2).unwrap();
    assert!(!tightest.has_goals(), "the leaf is a bare syntax node");
    let with_goals = smallest_containing_node_with_goals(&tree, 5, 2).unwrap();
    assert_eq!(with_goals.goals_before, vec!["⊢ outer".to_string()]);
}

#[test]
fn attachment_is_deterministic_and_feeds_the_feedback_renderer() {
    let raw = "Generated.lean:5:2: error: unsolved goals";
    let mut a = parse_diagnostics(FormalSystem::Lean, raw);
    assert_eq!(a[0].col_start, Some(3), "the parser rebases columns");
    let mut b = a.clone();
    let tree = nested();
    assert_eq!(attach_goal_states(&mut a, Some(&tree), 3), 1);
    assert_eq!(attach_goal_states(&mut b, Some(&tree), 3), 1);
    assert_eq!(a, b, "attachment must be byte-deterministic");
    let slot = a[0].goal_state_slot.as_deref().unwrap();
    assert!(slot.contains("h : n > 0"), "{slot}");
    assert!(slot.contains("⊢ inner"), "{slot}");
    assert!(slot.contains(AFTER_HEADING), "{slot}");
    assert!(slot.contains("⊢ done"), "{slot}");
}

#[test]
fn unparseable_goal_text_is_passed_through_rather_than_dropped() {
    let tree = InfoTree::from_raw(&vec![range_node(
        Some(rrange(1, 0, 1, 9)),
        many(&["some unstructured prover chatter"]),
        None,
        vec![],
    )])
    .unwrap();
    let mut diags = vec![lean_diag(1, 2, "boom")];
    assert_eq!(attach_goal_states(&mut diags, Some(&tree), 3), 1);
    assert_eq!(diags[0].goal_state_slot.as_deref(), Some("some unstructured prover chatter"));
}

#[test]
fn reversed_and_partial_ranges_are_discarded() {
    let reversed = range_node(Some(rrange(9, 0, 2, 0)), many(&["⊢ reversed"]), None, vec![]);
    let partial = range_node(
        Some(RawRange { start: Some(RawPos { line: Some(3), column: None }), finish: None }),
        many(&["⊢ partial"]),
        None,
        vec![],
    );
    let tree = InfoTree::from_raw(&vec![reversed, partial]).expect("nodes still exist, just spanless");
    assert!(tree.roots.iter().all(|n| n.span.is_none()));
    assert!(smallest_containing_node(&tree, 3, 1).is_none());
}

#[test]
fn the_rendered_block_is_exact() {
    let tree = nested();
    let leaf = &tree.roots[0].kids[0].kids[0];
    assert_eq!(
        render_node_goals(leaf).unwrap(),
        "n : Nat\nh : n > 0\n⊢ inner\n-- after the failing step --\n⊢ done"
    );
    let root = &tree.roots[0];
    assert_eq!(render_node_goals(root).unwrap(), "⊢ outer");
    // Several goals are joined by a blank line and rendered as cases.
    let two = normalize(&range_node(Some(rrange(1, 0, 1, 1)), many(&["⊢ a", "  ", "⊢ b"]), None, vec![])).unwrap();
    assert_eq!(two.goals_before.len(), 2, "blank goal texts are dropped");
    assert_eq!(render_node_goals(&two).unwrap(), "case 1\n⊢ a\n\ncase 2\n⊢ b");
}

#[test]
fn goals_in_other_shapes_are_read_by_key() {
    let other = GoalJson::Arr(vec![
        GoalJson::Obj(vec!["pp".to_string(), "goal".to_string()], vec![GoalJson::Str("⊢ second".into()), GoalJson::Str("⊢ first".into())]),
        GoalJson::Scalar,
        GoalJson::Str("⊢ plain".into()),
        GoalJson::Obj(vec!["type".to_string()], vec![GoalJson::Scalar]),
    ]);
    let raw = range_node(Some(rrange(1, 0, 1, 1)), Some(RawGoals::Other(other)), None, vec![]);
    let n = normalize(&raw).unwrap();
    assert_eq!(n.goals_before, vec!["⊢ first".to_string(), "⊢ plain".to_string()]);
}

#[test]
fn an_entry_with_nothing_normalizes_to_nothing() {
    assert!(normalize(&RawNode::default()).is_none());
    // An empty wrapper falls back to the inline body.
    let raw = RawNode {
        node: Some(RawNodeBody::default()),
        inline: RawNodeBody { stx: None, range: Some(rrange(1, 0, 1, 2)), goals_before: None, goals_after: None },
        kids: Vec::new(),
        children: Vec::new(),
    };
    let n = normalize(&raw).unwrap();
    assert_eq!(n.span.unwrap().start, Pos { line: 1, col: 1 });
}

#[test]
fn wrapper_keys_are_tried_in_order() {
    let asked: std::cell::RefCell<Vec<String>> = std::cell::RefCell::new(Vec::new());
    let lookup = |k: &str| {
        asked.borrow_mut().push(k.to_string());
        if k == "infotrees" || k == "trees" { Some(k.to_string()) } else { None }
    };
    assert_eq!(first_in_wrapper(&lookup), Some("infotrees".to_string()));
    assert_eq!(*asked.borrow(), vec!["infotree".to_string(), "infoTree".to_string(), "infotrees".to_string()]);
    let none = |_k: &str| -> Option<u8> { None };
    assert_eq!(first_in_wrapper(&none), None);
}
