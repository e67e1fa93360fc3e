use std::cell::Cell;
use theoremata_prover::declaration_lookup::{
    check, deep_check, fast_check, fast_verdict, library_verdict, module_of, normalize, separator,
    shallow_verdict, deep_verdict,
    Declaration, DeclarationIndex, ImportManifest, IndexError, IndexErrorKind, Verdict,
};
use theoremata_prover::backend::TextView;
use theoremata_prover::formal::FormalSystem;

/// A mock index over an explicit table, recording how often each tier ran.
struct MockIndex {
    library: Vec<Declaration>,
    manifest_calls: Cell<usize>,
    library_calls: Cell<usize>,
    manifest_error: Option<IndexError>,
    library_error: Option<IndexError>,
}

impl MockIndex {
    fn new(library: Vec<Declaration>) -> Self {
        Self {
            library,
            manifest_calls: Cell::new(0),
            library_calls: Cell::new(0),
            manifest_error: None,
            library_error: None,
        }
    }

    fn failing_manifest(mut self, e: IndexError) -> Self {
        self.manifest_error = Some(e);
        self
    }

    fn failing_library(mut self, e: IndexError) -> Self {
        self.library_error = Some(e);
        self
    }
}

impl DeclarationIndex for MockIndex {
    fn manifest_answer_ok(
        &self,
        _system: FormalSystem,
        _name: TextView,
        _manifest: ImportManifest,
        _r: Result<Option<Declaration>, IndexError>,
    ) -> bool {
        unreachable!("a model value, read in contracts only")
    }
    fn library_answer_ok(&self, _system: FormalSystem, _name: TextView, _r: Result<Option<Declaration>, IndexError>) -> bool {
        unreachable!("a model value, read in contracts only")
    }
    fn lookup_in_manifest(
        &self,
        system: FormalSystem,
        name: &str,
        manifest: &ImportManifest,
    ) -> Result<Option<Declaration>, IndexError> {
        self.manifest_calls.set(self.manifest_calls.get() + 1);
        if let Some(e) = &self.manifest_error {
            return Err(e.clone());
        }
        Ok(self
            .library
            .iter()
            .find(|d| d.system == system && d.name == name && manifest.covers(d))
            .cloned())
    }

    fn lookup_in_library(
        &self,
        system: FormalSystem,
        name: &str,
    ) -> Result<Option<Declaration>, IndexError> {
        self.library_calls.set(self.library_calls.get() + 1);
        if let Some(e) = &self.library_error {
            return Err(e.clone());
        }
        Ok(self
            .library
            .iter()
            .find(|d| d.system == system && d.name == name)
            .cloned())
    }
}

fn mathlib() -> Vec<Declaration> {
    vec![
        Declaration::in_module(FormalSystem::Lean, "Nat.succ_le_succ", "Mathlib.Data.Nat.Basic")
            .with_signature("∀ {n m : ℕ}, n ≤ m → n.succ ≤ m.succ")
            .with_kind("theorem"),
        Declaration::in_module(
            FormalSystem::Lean,
            "Finset.sum_range_succ",
            "Mathlib.Algebra.BigOperators.Basic",
        )
        .with_kind("theorem"),
    ]
}

fn imports_nat_only() -> ImportManifest {
    ImportManifest::new(FormalSystem::Lean, &["Mathlib.Data.Nat"])
}

#[test]
fn found_when_in_scope() {
    let index = MockIndex::new(mathlib());
    let v = deep_check(&index, FormalSystem::Lean, "Nat.succ_le_succ", &imports_nat_only());
    match &v {
        Verdict::Found(d) => {
            assert_eq!(d.name, "Nat.succ_le_succ");
            assert_eq!(d.module.as_deref(), Some("Mathlib.Data.Nat.Basic"));
            assert!(d.signature.is_some());
        }
        other => panic!("expected Found, got {other:?}"),
    }
    assert_eq!(v.tag(), "found");
    assert!(v.exists_somewhere());
    assert!(!v.is_evidence_of_absence());
    assert_eq!(index.library_calls.get(), 0);
}

#[test]
fn not_in_current_import_scope_when_present_only_in_the_wider_library() {
    let index = MockIndex::new(mathlib());
    let v = deep_check(&index, FormalSystem::Lean, "Finset.sum_range_succ", &imports_nat_only());
    match &v {
        Verdict::NotInCurrentImportScope { declaration, add_import } => {
            assert_eq!(declaration.name, "Finset.sum_range_succ");
            assert_eq!(add_import.as_deref(), Some("Mathlib.Algebra.BigOperators.Basic"));
        }
        other => panic!("expected NotInCurrentImportScope, got {other:?}"),
    }
    assert!(v.exists_somewhere(), "it exists — the branch is still alive");
    assert!(!v.is_evidence_of_absence(), "an out-of-scope hit must NEVER read as absence");
    assert!(v.action().contains("ADD THE IMPORT"));
}

#[test]
fn unknown_declaration_when_absent_everywhere() {
    let index = MockIndex::new(mathlib());
    let v = deep_check(&index, FormalSystem::Lean, "Nat.totally_made_up_lemma", &imports_nat_only());
    assert_eq!(
        v,
        Verdict::UnknownDeclaration { queried: "Nat.totally_made_up_lemma".to_string() }
    );
    assert!(v.is_evidence_of_absence());
    assert!(!v.exists_somewhere());
    assert!(v.action().contains("TRY ANOTHER NAME"));
    assert_eq!(index.manifest_calls.get(), 1);
    assert_eq!(index.library_calls.get(), 1);
}

#[test]
fn all_four_verdicts_are_distinguishable() {
    let tags = [
        deep_check(&MockIndex::new(mathlib()), FormalSystem::Lean, "Nat.succ_le_succ", &imports_nat_only()).tag(),
        deep_check(&MockIndex::new(mathlib()), FormalSystem::Lean, "Finset.sum_range_succ", &imports_nat_only()).tag(),
        deep_check(&MockIndex::new(mathlib()), FormalSystem::Lean, "Nat.nope", &imports_nat_only()).tag(),
        deep_check(
            &MockIndex::new(mathlib()).failing_manifest(IndexError::timeout("repl deadline")),
            FormalSystem::Lean,
            "Nat.succ_le_succ",
            &imports_nat_only(),
        )
        .tag(),
    ];
    assert_eq!(
        tags,
        ["found", "not_in_current_import_scope", "unknown_declaration", "environment_error"]
    );
    assert_eq!(tags.iter().filter(|t| **t == "unknown_declaration").count(), 1);
}

#[test]
fn a_failing_manifest_tier_yields_environment_error_never_unknown() {
    let index = MockIndex::new(mathlib())
        .failing_manifest(IndexError::toolchain_unavailable("lean binary not on PATH"));
    for name in ["Nat.succ_le_succ", "Nat.totally_made_up_lemma"] {
        let v = deep_check(&index, FormalSystem::Lean, name, &imports_nat_only());
        match &v {
            Verdict::EnvironmentError(e) => {
                assert_eq!(e.kind, IndexErrorKind::ToolchainUnavailable);
            }
            other => panic!("expected EnvironmentError for {name}, got {other:?}"),
        }
        assert!(!v.is_evidence_of_absence(), "an infra failure is evidence of NOTHING");
        assert!(!v.exists_somewhere());
        assert!(!v.licenses_abandoning_the_name());
        assert!(v.action().contains("evidence of NOTHING"));
    }
    assert_eq!(index.library_calls.get(), 0);
}

#[test]
fn a_failing_library_tier_yields_environment_error_never_unknown() {
    let index =
        MockIndex::new(mathlib()).failing_library(IndexError::index_missing("decl index not built"));
    let v = deep_check(&index, FormalSystem::Lean, "Nat.totally_made_up_lemma", &imports_nat_only());
    match &v {
        Verdict::EnvironmentError(e) => assert_eq!(e.kind, IndexErrorKind::IndexMissing),
        other => panic!("expected EnvironmentError, got {other:?}"),
    }
    assert!(!v.is_evidence_of_absence(), "a dead index must never be read as 'the library lacks it'");
    assert_eq!(index.library_calls.get(), 1, "the library tier was attempted");
}

#[test]
fn environment_error_is_never_equal_to_unknown_for_the_same_name() {
    let good = MockIndex::new(mathlib());
    let broken = MockIndex::new(mathlib()).failing_library(IndexError::timeout("40s deadline hit"));
    let name = "Nat.totally_made_up_lemma";
    let real_absence = deep_check(&good, FormalSystem::Lean, name, &imports_nat_only());
    let infra_failure = deep_check(&broken, FormalSystem::Lean, name, &imports_nat_only());
    assert_ne!(real_absence, infra_failure, "the two must remain structurally distinct");
    assert!(real_absence.is_evidence_of_absence());
    assert!(!infra_failure.is_evidence_of_absence());
}

#[test]
fn fast_path_does_not_consult_the_deep_index() {
    let index = MockIndex::new(mathlib());
    let hit = fast_check(&index, FormalSystem::Lean, "Nat.succ_le_succ", &imports_nat_only());
    assert!(matches!(hit, Some(Verdict::Found(_))));
    let miss = fast_check(&index, FormalSystem::Lean, "Finset.sum_range_succ", &imports_nat_only());
    assert_eq!(miss, None, "the fast path reports UNDECIDED, not Unknown");
    let nowhere = fast_check(&index, FormalSystem::Lean, "Nat.totally_made_up_lemma", &imports_nat_only());
    assert_eq!(nowhere, None, "even a genuinely absent name is UNDECIDED on the fast path");
    assert_eq!(index.library_calls.get(), 0);
    assert_eq!(index.manifest_calls.get(), 3);
}

#[test]
fn fast_path_never_produces_unknown_declaration() {
    let index = MockIndex::new(mathlib());
    for name in ["Nat.succ_le_succ", "Finset.sum_range_succ", "Nat.totally_made_up_lemma", ""] {
        if let Some(v) = fast_check(&index, FormalSystem::Lean, name, &imports_nat_only()) {
            assert!(!v.is_evidence_of_absence(), "fast_check may never conclude absence (name: {name:?})");
        }
    }
}

#[test]
fn shallow_check_reports_no_evidence_rather_than_unknown() {
    let index = MockIndex::new(mathlib());
    let v = check(&index, FormalSystem::Lean, "Finset.sum_range_succ", &imports_nat_only(), false);
    assert!(matches!(v, Verdict::EnvironmentError(_)));
    assert!(!v.is_evidence_of_absence());
    assert_eq!(index.library_calls.get(), 0);
    let deep = check(&index, FormalSystem::Lean, "Finset.sum_range_succ", &imports_nat_only(), true);
    assert!(matches!(deep, Verdict::NotInCurrentImportScope { .. }));
}

#[test]
fn deep_check_agrees_with_fast_check_whenever_fast_check_decides() {
    let index = MockIndex::new(mathlib());
    let manifest = imports_nat_only();
    for name in ["Nat.succ_le_succ", "Finset.sum_range_succ", "Nat.nope"] {
        if let Some(fast) = fast_check(&index, FormalSystem::Lean, name, &manifest) {
            assert_eq!(
                fast,
                deep_check(&index, FormalSystem::Lean, name, &manifest),
                "escalating must never change a decided verdict ({name})"
            );
        }
    }
}

#[test]
fn manifest_coverage_is_segment_aware() {
    let m = ImportManifest::new(FormalSystem::Lean, &["Mathlib.Data"]);
    assert!(m.covers_module("Mathlib.Data"));
    assert!(m.covers_module("Mathlib.Data.Nat.Basic"));
    assert!(!m.covers_module("Mathlib.DataFlow"), "prefix matching must respect segment boundaries");
    assert!(!m.covers_module("Mathlib"));
    assert!(!m.covers(&Declaration::new(FormalSystem::Lean, "orphan")));
}

#[test]
fn manifest_is_order_independent_and_deduplicated() {
    let a = ImportManifest::new(FormalSystem::Lean, &["Mathlib.Order", "Mathlib.Data"]);
    let b = ImportManifest::new(FormalSystem::Lean, &["Mathlib.Data", "Mathlib.Order", "Mathlib.Data"]);
    assert_eq!(a, b);
    assert_eq!(a.imports(), ["Mathlib.Data", "Mathlib.Order"]);
    assert!(ImportManifest::empty(FormalSystem::Lean).imports().is_empty());
}

#[test]
fn empty_manifest_still_finds_via_deep_check() {
    let index = MockIndex::new(mathlib());
    let empty = ImportManifest::empty(FormalSystem::Lean);
    for name in ["Nat.succ_le_succ", "Finset.sum_range_succ"] {
        let v = deep_check(&index, FormalSystem::Lean, name, &empty);
        assert!(
            matches!(v, Verdict::NotInCurrentImportScope { .. }),
            "{name} must be reported as importable, got {v:?}"
        );
    }
}

#[test]
fn normalization_strips_decoration_without_changing_the_name() {
    assert_eq!(normalize(FormalSystem::Lean, "  `Nat.succ_le_succ`  "), "Nat.succ_le_succ");
    assert_eq!(normalize(FormalSystem::Lean, "Nat..add"), "Nat.add");
    assert_eq!(normalize(FormalSystem::Rocq, ".Coq.Init.Nat.add"), "Coq.Init.Nat.add");
    assert_eq!(normalize(FormalSystem::Lean, "«odd name»"), "odd name");
    assert_eq!(normalize(FormalSystem::Lean, "Nat.Add"), "Nat.Add");
    assert_eq!(separator(FormalSystem::Metamath), None);
    assert_eq!(normalize(FormalSystem::Metamath, " ax-mp "), "ax-mp");
    assert_eq!(module_of(FormalSystem::Metamath, "ax-mp"), None);
}

#[test]
fn module_is_derived_from_the_qualified_name_when_the_index_omits_it() {
    assert_eq!(
        module_of(FormalSystem::Lean, "Mathlib.Data.Nat.Basic.succ_le"),
        Some("Mathlib.Data.Nat.Basic".to_string())
    );
    assert_eq!(module_of(FormalSystem::Isabelle, "Nat.add_commute"), Some("Nat".into()));
    assert_eq!(module_of(FormalSystem::Agda, "Data.Nat.Base.suc"), Some("Data.Nat.Base".into()));
    assert_eq!(module_of(FormalSystem::Lean, "unqualified"), None);
    let d = Declaration::new(FormalSystem::Lean, "Nat.succ_le_succ");
    assert_eq!(d.effective_module(), Some("Nat".to_string()));
}

#[test]
fn lookups_are_normalized_before_dispatch() {
    let index = MockIndex::new(mathlib());
    let v = deep_check(&index, FormalSystem::Lean, " `Nat.succ_le_succ` ", &imports_nat_only());
    assert!(matches!(v, Verdict::Found(_)));
}

#[test]
fn per_system_dispatch_does_not_cross_systems() {
    let index = MockIndex::new(mathlib());
    let v = deep_check(
        &index,
        FormalSystem::Rocq,
        "Nat.succ_le_succ",
        &ImportManifest::new(FormalSystem::Rocq, &["Coq.Init"]),
    );
    assert!(v.is_evidence_of_absence(), "got {v:?}");
}

#[test]
fn verdicts_are_deterministic() {
    let manifest = imports_nat_only();
    for name in ["Nat.succ_le_succ", "Finset.sum_range_succ", "Nat.totally_made_up_lemma"] {
        let a = deep_check(&MockIndex::new(mathlib()), FormalSystem::Lean, name, &manifest);
        let b = deep_check(&MockIndex::new(mathlib()), FormalSystem::Lean, name, &manifest);
        assert_eq!(a, b);
        assert_eq!(a.action(), b.action());
    }
}

#[test]
fn every_verdict_carries_an_actionable_message() {
    let verdicts = [
        Verdict::Found(Declaration::new(FormalSystem::Lean, "Nat.add")),
        Verdict::NotInCurrentImportScope {
            declaration: Declaration::new(FormalSystem::Lean, "Finset.sum"),
            add_import: None,
        },
        Verdict::UnknownDeclaration { queried: "Nat.nope".into() },
        Verdict::EnvironmentError(IndexError::timeout("deadline")),
    ];
    for v in &verdicts {
        assert!(!v.action().is_empty(), "{} needs an action", v.tag());
        assert!(!v.tag().is_empty());
    }
    assert_eq!(verdicts.iter().filter(|v| v.is_evidence_of_absence()).count(), 1);
}

#[test]
fn index_error_kinds_have_stable_tags() {
    for kind in [
        IndexErrorKind::ToolchainUnavailable,
        IndexErrorKind::IndexMissing,
        IndexErrorKind::Timeout,
        IndexErrorKind::Malformed,
        IndexErrorKind::Other,
    ] {
        assert!(!kind.tag().is_empty());
        let v = Verdict::EnvironmentError(IndexError::new(kind, "detail"));
        assert!(!v.is_evidence_of_absence());
    }
    assert!(IndexErrorKind::Timeout.is_transient());
    assert!(!IndexErrorKind::IndexMissing.is_transient());
}

// -- additional checks of the pure deciders ---------------------------------

#[test]
fn fast_verdict_maps_each_lookup_outcome() {
    let d = Declaration::new(FormalSystem::Lean, "Nat.add");
    assert_eq!(fast_verdict(Ok(Some(d.clone()))), Some(Verdict::Found(d)));
    assert_eq!(fast_verdict(Ok(None)), None);
    let e = IndexError::timeout("t");
    assert_eq!(fast_verdict(Err(e.clone())), Some(Verdict::EnvironmentError(e)));
}

#[test]
fn library_verdict_names_the_import_to_add() {
    let d = Declaration::new(FormalSystem::Lean, "Nat.succ_le_succ");
    match library_verdict(Ok(Some(d)), "Nat.succ_le_succ".to_string()) {
        Verdict::NotInCurrentImportScope { add_import, .. } => {
            assert_eq!(add_import.as_deref(), Some("Nat"))
        }
        other => panic!("got {other:?}"),
    }
    assert_eq!(
        library_verdict(Ok(None), "X.y".to_string()),
        Verdict::UnknownDeclaration { queried: "X.y".to_string() }
    );
}

#[test]
fn normalization_unwraps_nested_decoration_and_trims_separators() {
    assert_eq!(normalize(FormalSystem::Lean, " «`‹Nat.add›`» "), "Nat.add");
    assert_eq!(normalize(FormalSystem::Lean, "..Nat...add.."), "Nat.add");
    assert_eq!(module_of(FormalSystem::Lean, ".add"), None);
}

#[test]
fn shallow_verdict_reports_an_unconsulted_library() {
    match shallow_verdict(None, FormalSystem::Lean, "  Nat.succ_le ") {
        Verdict::EnvironmentError(e) => {
            assert_eq!(e.kind, IndexErrorKind::IndexMissing);
            assert_eq!(
                e.detail,
                "`Nat.succ_le` is not in the current import scope, and the wider-library index was not consulted (deep_check disabled). No conclusion about existence is available."
            );
        }
        other => panic!("unexpected verdict {other:?}"),
    }
    let found = Verdict::Found(Declaration::new(FormalSystem::Lean, "Nat.succ_le"));
    assert_eq!(shallow_verdict(Some(found.clone()), FormalSystem::Lean, "x"), found);
}

#[test]
fn deep_verdict_composes_both_tiers() {
    let d = Declaration::new(FormalSystem::Lean, "Nat.succ_le");
    assert_eq!(
        deep_verdict(Ok(Some(d.clone())), None, "Nat.succ_le".to_string()),
        Verdict::Found(d.clone())
    );
    let err = IndexError::timeout("slow");
    assert_eq!(
        deep_verdict(Err(err.clone()), None, "Nat.succ_le".to_string()),
        Verdict::EnvironmentError(err.clone())
    );
    assert_eq!(
        deep_verdict(Ok(None), Some(Ok(None)), "Nat.succ_le".to_string()),
        Verdict::UnknownDeclaration { queried: "Nat.succ_le".to_string() }
    );
    assert_eq!(
        deep_verdict(Ok(None), Some(Err(err.clone())), "Nat.succ_le".to_string()),
        Verdict::EnvironmentError(err)
    );
    match deep_verdict(Ok(None), Some(Ok(Some(d.clone()))), "Nat.succ_le".to_string()) {
        Verdict::NotInCurrentImportScope { declaration, add_import } => {
            assert_eq!(declaration, d);
            assert_eq!(add_import, Some("Nat".to_string()));
        }
        other => panic!("unexpected verdict {other:?}"),
    }
}

#[test]
fn normalized_names_have_no_outer_or_doubled_separator() {
    let n = normalize(FormalSystem::Rocq, "  `..Coq..Init...Nat.add.`  ");
    assert_eq!(n, "Coq.Init.Nat.add");
    assert!(!n.starts_with('.') && !n.ends_with('.') && !n.contains(".."));
}

#[test]
fn manifest_ignores_order_and_repetition() {
    let a = ImportManifest::new(FormalSystem::Lean, &["Mathlib.Data.Nat", " `Init` ", "Mathlib.Data.Nat", ""]);
    let b = ImportManifest::new(FormalSystem::Lean, &["Init", "Mathlib..Data.Nat"]);
    assert_eq!(a.imports(), b.imports());
    assert_eq!(a.imports(), &["Init".to_string(), "Mathlib.Data.Nat".to_string()][..]);
}
