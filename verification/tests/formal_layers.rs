use theoremata_prover::backend::{
    precheck_compat, AxiomReport, CompileReport, FormalBackend, NamesView, RecheckReport, TextView, ToolchainView,
};
use theoremata_prover::formal::{gate_value_on, FormalSystem, ScanReport, TierZeroGates, Workspace};
use theoremata_prover::hypothesis_audit::audit_hypotheses;
use theoremata_prover::statement_preservation::check_entry_signature;

/// A backend whose classic layers all pass, with configurable designated
/// inputs.
#[derive(Default)]
struct GateTestBackend {
    inputs: Vec<String>,
}

impl FormalBackend for GateTestBackend {
    fn system_spec(&self) -> FormalSystem {
        FormalSystem::Lean
    }
    fn mock_spec(&self) -> bool {
        false
    }
    fn expected_toolchain_spec(&self) -> ToolchainView {
        None
    }
    fn designated_inputs_spec(&self) -> NamesView {
        unreachable!("a model value, read in contracts only")
    }
    fn available_ok(&self, _r: bool) -> bool {
        unreachable!("a model value, read in contracts only")
    }
    fn scaffold_ok(&self, _code: TextView, _name: TextView, _r: Result<Workspace, String>) -> bool {
        unreachable!("a model value, read in contracts only")
    }
    fn compile_ok(&self, _ws: Workspace, _r: Result<CompileReport, String>) -> bool {
        unreachable!("a model value, read in contracts only")
    }
    fn audit_ok(&self, _ws: Workspace, _thm: TextView, _whitelist: NamesView, _r: Result<AxiomReport, String>) -> bool {
        unreachable!("a model value, read in contracts only")
    }
    fn recheck_ok(&self, _ws: Workspace, _r: Result<RecheckReport, String>) -> bool {
        unreachable!("a model value, read in contracts only")
    }
    fn scan_ok(&self, _code: TextView, _r: Result<ScanReport, String>) -> bool {
        unreachable!("a model value, read in contracts only")
    }
    fn system(&self) -> FormalSystem {
        FormalSystem::Lean
    }
    fn is_mock(&self) -> bool {
        false
    }
    fn available(&self) -> bool {
        true
    }
    fn expected_toolchain(&self) -> Option<String> {
        None
    }
    fn designated_inputs(&self) -> Vec<String> {
        self.inputs.clone()
    }
    fn scaffold(&self, _code: &str, name: &str) -> Result<Workspace, String> {
        Ok(Workspace {
            system: FormalSystem::Lean,
            root: ".".to_string(),
            source_path: "./Generated.lean".to_string(),
            entry: name.to_string(),
        })
    }
    fn compile(&self, _ws: &Workspace) -> Result<CompileReport, String> {
        Ok(CompileReport { compiled: true, errors: Vec::new(), per_unit: Vec::new() })
    }
    fn audit_axioms(&self, _ws: &Workspace, _thm: &str, _whitelist: &[String]) -> Result<AxiomReport, String> {
        Ok(AxiomReport { axioms: Vec::new(), within_whitelist: true })
    }
    fn kernel_recheck(&self, _ws: &Workspace) -> Result<RecheckReport, String> {
        Ok(RecheckReport { rechecked: true })
    }
    fn source_scan(&self, _code: &str) -> Result<ScanReport, String> {
        Ok(ScanReport { clean: true, findings: Vec::new() })
    }
}

/// A theorem conditional on a `Prop` that is stated and never proved.
const COND_STMT: &str = "theorem phi3 (hG : Glaisher3) : True";
const COND_CODE: &str = "\
def Glaisher3 : Prop := True

theorem phi3 (hG : Glaisher3) : True := trivial
";

#[test]
fn tier0_reports_are_observational_when_the_gates_are_off() {
    let backend = GateTestBackend::default();
    // An unwitnessed bundle: the vacuity result is false.
    let report = backend.verify_with_gates(COND_CODE, COND_STMT, TierZeroGates::off(), false).expect("verify must succeed");
    assert!(report.verdict.lexically_verified, "gates off must not change the verdict");
    assert!(report.verdict.axioms_clean);
    assert!(report.verdict.lexical_clean);
    assert!(report.verdict.statement_preserved);
    // ...yet both findings are recorded in the detail, neither enforced.
    let t = &report.detail;
    assert!(!t.hypothesis_audit.clean);
    assert!(!t.gates.hypothesis_discharge);
    assert!(!t.bundle_satisfiable);
    assert!(!t.gates.vacuity);
    assert!(t.hypothesis_audit.findings.iter().any(|f| f.contains("Glaisher3")));
    // The same finding as the audit gives on its own.
    let audit = audit_hypotheses(FormalSystem::Lean, COND_STMT, COND_CODE, &[]);
    assert_eq!(audit, t.hypothesis_audit);
}

#[test]
fn hypothesis_gate_fails_closed_when_switched_on() {
    let backend = GateTestBackend::default();
    let gates = TierZeroGates { hypothesis_discharge: true, vacuity: false };
    let report = backend.verify_with_gates(COND_CODE, COND_STMT, gates, true).unwrap();
    assert!(!report.verdict.lexically_verified, "an undischarged hypothesis must fail when the switch is on");
    assert!(report.verdict.axioms_clean && report.verdict.lexical_clean && report.verdict.statement_preserved);
}

#[test]
fn designated_inputs_clear_the_hypothesis_gate() {
    let gates = TierZeroGates { hypothesis_discharge: true, vacuity: false };
    let by_head = GateTestBackend { inputs: vec!["Glaisher3".to_string()] };
    assert!(by_head.verify_with_gates(COND_CODE, COND_STMT, gates, true).unwrap().verdict.lexically_verified);
    let by_binder = GateTestBackend { inputs: vec!["hG".to_string()] };
    assert!(by_binder.verify_with_gates(COND_CODE, COND_STMT, gates, true).unwrap().verdict.lexically_verified);
}

#[test]
fn vacuity_gate_fails_closed_without_a_witness() {
    let backend = GateTestBackend { inputs: vec!["Glaisher3".to_string()] };
    let gates = TierZeroGates { hypothesis_discharge: false, vacuity: true };
    let report = backend.verify_with_gates(COND_CODE, COND_STMT, gates, false).unwrap();
    assert!(!report.verdict.lexically_verified, "no witness must fail closed");
}

#[test]
fn a_supplied_witness_clears_the_vacuity_gate() {
    let backend = GateTestBackend { inputs: vec!["Glaisher3".to_string()] };
    let report = backend.verify_with_gates(COND_CODE, COND_STMT, TierZeroGates::on(), true).unwrap();
    assert!(report.verdict.lexically_verified, "a witnessed bundle and an allowlisted input must pass");
}

#[test]
fn a_violating_witness_does_not_clear_the_vacuity_gate() {
    let backend = GateTestBackend { inputs: vec!["Glaisher3".to_string()] };
    assert!(!backend.verify_with_gates(COND_CODE, COND_STMT, TierZeroGates::on(), false).unwrap().verdict.lexically_verified);
}

#[test]
fn an_undeclared_bundle_is_not_declared_rather_than_failed() {
    // An undeclared bundle counts as satisfiable: nothing is guessed.
    let backend = GateTestBackend { inputs: vec!["Glaisher3".to_string()] };
    assert!(backend.verify_with_gates(COND_CODE, COND_STMT, TierZeroGates::on(), true).unwrap().verdict.lexically_verified);
}

#[test]
fn gate_env_parsing_is_default_off() {
    assert_eq!(TierZeroGates::default(), TierZeroGates::off());
    assert!(!TierZeroGates::off().any());
    assert!(TierZeroGates::on().any());
    assert!(!gate_value_on(None));
    for falsey in ["", " ", "0", "false", "FALSE", "off", " Off "] {
        assert!(!gate_value_on(Some(falsey)), "`{falsey}` must read as OFF");
    }
    for truthy in ["1", "true", "on", "yes"] {
        assert!(gate_value_on(Some(truthy)), "`{truthy}` must read as ON");
    }
}

#[test]
fn precheck_rejects_only_a_known_mismatch() {
    let sys = FormalSystem::Lean;
    let r = precheck_compat(sys, Some("leanprover/lean4:v4.9.0"), Some("leanprover/lean4:v4.10.0"));
    assert!(!r.compatible);
    assert!(r.reason.contains("mismatch"));
    let r = precheck_compat(sys, Some("leanprover/lean4:v4.9.0"), Some("leanprover/lean4:v4.9.0"));
    assert!(r.compatible);
    assert!(precheck_compat(sys, None, Some("leanprover/lean4:v4.9.0")).compatible);
    assert!(precheck_compat(sys, Some("leanprover/lean4:v4.9.0"), None).compatible);
    assert!(precheck_compat(sys, None, None).compatible);
}

#[test]
fn signature_rejects_a_statement_smuggled_only_into_a_string() {
    let report = check_entry_signature(
        FormalSystem::Lean,
        "theorem wanted : False",
        "theorem decoy : True := trivial\n#check \"theorem wanted : False\"\n",
    );
    assert!(!report.preserved, "a string literal must not establish statement preservation");
    let backend = GateTestBackend::default();
    let v = backend
        .verify_with_gates("theorem decoy : True := trivial\n#check \"theorem wanted : False\"\n", "theorem wanted : False", TierZeroGates::off(), true)
        .unwrap();
    assert!(!v.verdict.lexically_verified);
}
