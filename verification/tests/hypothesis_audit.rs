use theoremata_prover::formal::FormalSystem;
use theoremata_prover::hypothesis_audit::{
    audit_hypotheses, HypothesisFlavor, HypothesisReport, HypothesisStatus,
};

fn audit(canonical: &str, code: &str) -> HypothesisReport {
    audit_hypotheses(FormalSystem::Lean, canonical, code, &[])
}

/// An unconditional theorem — only data binders and an ordinary
/// propositional antecedent — is clean.
#[test]
fn unconditional_theorem_is_clean() {
    let canonical = "theorem add_pos (n : Nat) (hn : 0 < n) : 0 < n + 1";
    let code = "theorem add_pos (n : Nat) (hn : 0 < n) : 0 < n + 1 := by omega\n";
    let r = audit(canonical, code);
    assert!(r.clean, "unconditional theorem must pass: {:?}", r.findings);
    assert!(r.applicable);
    assert_eq!(r.target.as_deref(), Some("add_pos"));
    assert!(r.findings.is_empty());
    assert!(r.hypotheses.is_empty(), "{:?}", r.hypotheses);
    assert!(r.into_scan_report().clean);
}

/// Mechanism (a): a Prop-valued hypothesis whose proposition is STATED but
/// never PROVED is Unaccounted and fails closed.
#[test]
fn unproved_prop_hypothesis_is_unaccounted() {
    let canonical = "theorem phi3_bijOn (hGlaisher : Glaisher3) (N : Nat) : N = N";
    let code = "\
def Glaisher3 : Prop := ∀ n : Nat, n * 3 = 3 * n

theorem phi3_bijOn (hGlaisher : Glaisher3) (N : Nat) : N = N := rfl
";
    let r = audit(canonical, code);
    assert!(!r.clean, "conditional theorem must fail closed");
    assert_eq!(r.unaccounted_count(), 1);
    let h = r
        .hypotheses
        .iter()
        .find(|h| h.name == "hGlaisher")
        .expect("hypothesis binder must be enumerated");
    assert_eq!(h.status, HypothesisStatus::Unaccounted);
    assert_eq!(h.flavor, HypothesisFlavor::PropDef);
    assert_eq!(h.head, "Glaisher3");
    assert!(h.witness.is_none());
    // The data binder `N : Nat` is not an assumption and is not flagged.
    assert!(r.hypotheses.iter().all(|h| h.name != "N"));
    assert!(r.findings.iter().any(|f| f.contains("Glaisher3")));
    assert!(!r.into_scan_report().clean);
}

/// The SAME submission, with the caller declaring `Glaisher3` a designated
/// input, is Allowlisted and clean.
#[test]
fn allowlisted_hypothesis_is_not_unaccounted() {
    let canonical = "theorem phi3_bijOn (hGlaisher : Glaisher3) (N : Nat) : N = N";
    let code = "\
def Glaisher3 : Prop := ∀ n : Nat, n * 3 = 3 * n

theorem phi3_bijOn (hGlaisher : Glaisher3) (N : Nat) : N = N := rfl
";
    let allow = vec!["Glaisher3".to_string()];
    let r = audit_hypotheses(FormalSystem::Lean, canonical, code, &allow);
    assert!(r.clean, "allowlisted input must pass: {:?}", r.findings);
    assert_eq!(r.unaccounted_count(), 0);
    assert_eq!(r.hypotheses[0].status, HypothesisStatus::Allowlisted);
    // Allowlisting by BINDER name works too.
    let by_binder = vec!["hGlaisher".to_string()];
    let r2 = audit_hypotheses(FormalSystem::Lean, canonical, code, &by_binder);
    assert!(r2.clean, "{:?}", r2.findings);
}

/// A Prop hypothesis that IS proved elsewhere in the submission is
/// Discharged.
#[test]
fn proved_prop_hypothesis_is_discharged() {
    let canonical = "theorem phi3_bijOn (hGlaisher : Glaisher3) (N : Nat) : N = N";
    let code = "\
def Glaisher3 : Prop := ∀ n : Nat, n * 3 = 3 * n

theorem glaisher3_holds : Glaisher3 := by intro n; ring

theorem phi3_bijOn (hGlaisher : Glaisher3) (N : Nat) : N = N := rfl
";
    let r = audit(canonical, code);
    assert!(r.clean, "discharged hypothesis must pass: {:?}", r.findings);
    assert_eq!(r.hypotheses[0].status, HypothesisStatus::Discharged);
    assert_eq!(
        r.hypotheses[0].witness.as_deref(),
        Some("theorem glaisher3_holds")
    );
}

/// Mechanism (b): an assumption-bundling structure with NO instance is
/// flagged, and its fields are reported.
#[test]
fn uninhabited_assumption_structure_is_flagged() {
    let canonical = "theorem tau_bound (hT : RamanujanTau) (n : Nat) : n = n";
    let code = "\
structure RamanujanTau where
  tau_one : True
  tau_mul : True
  tau_prime_power : True
  tau_bound : True
  tau_nonzero : True

theorem tau_bound (hT : RamanujanTau) (n : Nat) : n = n := rfl
";
    let r = audit(canonical, code);
    assert!(!r.clean, "uninhabited assumption bundle must fail closed");
    assert_eq!(r.hypotheses[0].flavor, HypothesisFlavor::Bundle);
    assert_eq!(r.hypotheses[0].status, HypothesisStatus::Unaccounted);

    let bundle = r
        .bundles
        .iter()
        .find(|b| b.name == "RamanujanTau")
        .expect("bundle must be reported");
    assert!(!bundle.instantiated);
    assert_eq!(bundle.kind, "structure");
    assert_eq!(bundle.fields.len(), 5, "fields: {:?}", bundle.fields);
    let names: Vec<&str> = bundle.fields.iter().map(|f| f.name.as_str()).collect();
    assert_eq!(
        names,
        vec![
            "tau_one",
            "tau_mul",
            "tau_prime_power",
            "tau_bound",
            "tau_nonzero"
        ]
    );
    // The finding names the structure and enumerates the bundled properties.
    assert!(r
        .findings
        .iter()
        .any(|f| f.contains("RamanujanTau") && f.contains("tau_prime_power")));
}

/// The same structure WITH an instance constructed is Discharged and clean.
#[test]
fn instantiated_assumption_structure_is_discharged() {
    let canonical = "theorem tau_bound (hT : RamanujanTau) (n : Nat) : n = n";
    let code = "\
structure RamanujanTau where
  tau_one : True
  tau_mul : True

instance : RamanujanTau := ⟨trivial, trivial⟩

theorem tau_bound (hT : RamanujanTau) (n : Nat) : n = n := rfl
";
    let r = audit(canonical, code);
    assert!(r.clean, "instantiated bundle must pass: {:?}", r.findings);
    assert_eq!(r.hypotheses[0].status, HypothesisStatus::Discharged);
    let bundle = r
        .bundles
        .iter()
        .find(|b| b.name == "RamanujanTau")
        .expect("bundle must still be reported");
    assert!(bundle.instantiated);
    assert!(r.findings.is_empty(), "{:?}", r.findings);
}

/// A named `def` witness of the bundle counts as construction too.
#[test]
fn def_witness_discharges_a_bundle() {
    let canonical = "theorem tau_bound (hT : RamanujanTau) : True";
    let code = "\
structure RamanujanTau where
  tau_one : True

def ramanujanTauHolds : RamanujanTau := ⟨trivial⟩

theorem tau_bound (hT : RamanujanTau) : True := trivial
";
    let r = audit(canonical, code);
    assert!(r.clean, "{:?}", r.findings);
    assert_eq!(
        r.hypotheses[0].witness.as_deref(),
        Some("def ramanujanTauHolds")
    );
}

/// An `axiom` is NOT a discharge — asserting the assumption by fiat is the
/// very failure this layer exists to catch.
#[test]
fn axiom_does_not_discharge() {
    let canonical = "theorem phi3 (hG : Glaisher3) : True";
    let code = "\
def Glaisher3 : Prop := True

axiom glaisher3_ax : Glaisher3

theorem phi3 (hG : Glaisher3) : True := trivial
";
    let r = audit(canonical, code);
    assert!(!r.clean, "an axiom must not count as a discharge");
    assert_eq!(r.hypotheses[0].status, HypothesisStatus::Unaccounted);
}

/// An unresolved bare-identifier hypothesis (`(hR : RiemannHypothesis)` with
/// no local declaration) is Unaccounted — fail-closed, allowlistable.
#[test]
fn opaque_imported_hypothesis_is_unaccounted() {
    let canonical = "theorem cond (hR : RiemannHypothesis) (n : Nat) : n = n";
    let code = "theorem cond (hR : RiemannHypothesis) (n : Nat) : n = n := rfl\n";
    let r = audit(canonical, code);
    assert!(!r.clean);
    assert_eq!(r.hypotheses[0].flavor, HypothesisFlavor::Opaque);
    assert_eq!(r.hypotheses[0].status, HypothesisStatus::Unaccounted);
    // Allowlisting it makes the report clean.
    let allow = vec!["RiemannHypothesis".to_string()];
    let r2 = audit_hypotheses(FormalSystem::Lean, canonical, code, &allow);
    assert!(r2.clean, "{:?}", r2.findings);
}

/// An unparseable canonical statement fails CLOSED — never clean.
#[test]
fn hypothesis_audit_unparsable_canonical_fails_closed() {
    let r = audit("-- just a comment, no theorem", "theorem T : True := trivial");
    assert!(!r.clean, "unparseable input must never default to clean");
    assert!(r.target.is_none());
    assert!(r.findings.iter().any(|f| f.contains("fail-closed")));
    assert!(!r.into_scan_report().clean);
}

/// A submission that does not contain the canonical declaration at all fails
/// closed (we cannot audit a signature we cannot see).
#[test]
fn missing_target_declaration_fails_closed() {
    let r = audit(
        "theorem main (n : Nat) : n = n",
        "theorem helper (n : Nat) : n = n := rfl",
    );
    assert!(!r.clean);
    assert!(r.findings.iter().any(|f| f.contains("main")));
}

/// A declaration-shaped COMMENT cannot supply a discharge.
#[test]
fn commented_out_witness_does_not_discharge() {
    let canonical = "theorem phi3 (hG : Glaisher3) : True";
    let code = "\
def Glaisher3 : Prop := True

-- theorem glaisher3_holds : Glaisher3 := by trivial

theorem phi3 (hG : Glaisher3) : True := trivial
";
    let r = audit(canonical, code);
    assert!(!r.clean, "a commented-out proof must not discharge");
    assert_eq!(r.hypotheses[0].status, HypothesisStatus::Unaccounted);
}

/// Every bound name of a shared binder group is audited separately.
#[test]
fn grouped_binders_are_each_enumerated() {
    let canonical = "theorem two (h1 h2 : Glaisher3) : True";
    let code = "\
def Glaisher3 : Prop := True

theorem two (h1 h2 : Glaisher3) : True := trivial
";
    let r = audit(canonical, code);
    assert_eq!(r.hypotheses.len(), 2);
    assert_eq!(r.hypotheses[0].name, "h1");
    assert_eq!(r.hypotheses[1].name, "h2");
    assert_eq!(r.unaccounted_count(), 2);
}

/// A non-Lean system is reported NOT APPLICABLE rather than fail-closed, so
/// wiring this layer in never regresses a backend it cannot parse.
#[test]
fn non_lean_system_is_not_applicable() {
    let r = audit_hypotheses(
        FormalSystem::Rocq,
        "Theorem t : True.",
        "Theorem t : True. Proof. trivial. Qed.",
        &[],
    );
    assert!(!r.applicable);
    assert!(r.clean);
    assert!(r.findings.iter().any(|f| f.contains("not applicable")));
}

/// Pure and deterministic: identical inputs yield an identical report.
#[test]
fn audit_is_deterministic() {
    let canonical = "theorem t (hG : Glaisher3) (hT : RamanujanTau) (n : Nat) : n = n";
    let code = "\
def Glaisher3 : Prop := True

structure RamanujanTau where
  tau_one : True

theorem t (hG : Glaisher3) (hT : RamanujanTau) (n : Nat) : n = n := rfl
";
    let a = audit(canonical, code);
    let b = audit(canonical, code);
    assert_eq!(a, b);
    assert!(!a.clean);
    assert_eq!(a.unaccounted_count(), 2);
}


#[test]
fn hypothesis_tags_are_stable() {
    assert_eq!(HypothesisStatus::Discharged.tag(), "discharged");
    assert_eq!(HypothesisStatus::Allowlisted.tag(), "allowlisted");
    assert_eq!(HypothesisStatus::Unaccounted.tag(), "unaccounted");
    assert_eq!(HypothesisFlavor::PropDef.tag(), "prop_def");
    assert_eq!(HypothesisFlavor::Bundle.tag(), "bundle");
    assert_eq!(HypothesisFlavor::Opaque.tag(), "opaque");
}

#[test]
fn bundle_finding_counts_and_lists_fields() {
    let canonical = "theorem t (hB : Bun) : True";
    let code = "structure Bun where\n  p : True\n\ntheorem t (hB : Bun) : True := trivial\n";
    let r = audit(canonical, code);
    assert!(!r.clean);
    assert!(r.findings.iter().any(|f| f.contains("it bundles 1 unproved property: `p : True`")));
    assert_eq!(r.bundles.len(), 1);
    assert_eq!(r.bundles[0].fields.len(), 1);
}

#[test]
fn structure_fields_in_assign_form_are_parsed() {
    let canonical = "theorem t (hB : Bun) : True";
    let code = "structure Bun := (a b : True) (c : 1 = 1)\n\ntheorem t (hB : Bun) : True := trivial\n";
    let r = audit(canonical, code);
    let names: Vec<&str> = r.bundles[0].fields.iter().map(|f| f.name.as_str()).collect();
    assert_eq!(names, vec!["a", "b", "c"]);
    assert_eq!(r.bundles[0].fields[2].ty, "1 = 1");
}

#[test]
fn mk_construction_discharges() {
    let canonical = "theorem t (hB : Bun) : True";
    let code = "structure Bun where\n  p : True\n\ndef w := Bun.mk trivial\n\ntheorem t (hB : Bun) : True := trivial\n";
    let r = audit(canonical, code);
    assert!(r.clean, "{:?}", r.findings);
    assert_eq!(r.hypotheses[0].witness.as_deref(), Some("Bun.mk construction"));
}
