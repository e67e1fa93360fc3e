use theoremata_prover::formal::{FormalSystem, TierZeroGates};
use theoremata_prover::gate::{gate_verdict, LayerResults};

const STMT: &str = "theorem t (n : Nat) : n = n";
const CODE: &str = "theorem t (n : Nat) : n = n := by\n  rfl\n";

fn all_pass() -> LayerResults {
    LayerResults { compiled: true, within_whitelist: true, rechecked: true, scan_clean: true }
}

fn off() -> TierZeroGates {
    TierZeroGates { hypothesis_discharge: false, vacuity: false }
}

#[test]
fn every_layer_passing_verifies_live() {
    let v = gate_verdict(FormalSystem::Lean, CODE, STMT, false, off(), all_pass(), &[], true);
    assert!(v.lexically_verified && v.statement_preserved && v.lexical_clean && v.axioms_clean);
    assert_eq!(v.hardening_clean, Some(true));
    assert!(v.live);
}

#[test]
fn any_failing_layer_fails_closed() {
    for layers in [
        LayerResults { compiled: false, ..all_pass() },
        LayerResults { within_whitelist: false, ..all_pass() },
        LayerResults { rechecked: false, ..all_pass() },
        LayerResults { scan_clean: false, ..all_pass() },
    ] {
        let v = gate_verdict(FormalSystem::Lean, CODE, STMT, false, off(), layers, &[], true);
        assert!(!v.lexically_verified, "{layers:?}");
    }
    let v = gate_verdict(FormalSystem::Lean, CODE, STMT, false, off(), LayerResults { rechecked: false, ..all_pass() }, &[], true);
    assert_eq!(v.hardening_clean, Some(false));
}

#[test]
fn a_suggestion_tactic_is_rejected() {
    let code = "theorem t (n : Nat) : n = n := by\n  exact?\n";
    let v = gate_verdict(FormalSystem::Lean, code, STMT, false, off(), all_pass(), &[], true);
    assert!(!v.lexical_clean && !v.lexically_verified);
}

#[test]
fn a_changed_statement_is_not_preserved_but_a_mock_is_held_to_the_mention_only() {
    let code = "theorem t (n : Nat) : n = n + 0 := by\n  simp\n-- theorem t (n : Nat) : n = n\n";
    let v = gate_verdict(FormalSystem::Lean, code, STMT, false, off(), all_pass(), &[], true);
    assert!(!v.statement_preserved && !v.lexically_verified);
    let mock = gate_verdict(FormalSystem::Lean, CODE, STMT, true, off(), all_pass(), &[], true);
    assert!(mock.statement_preserved && mock.lexically_verified);
    assert!(!mock.live, "a mock verdict is never live");
}

#[test]
fn tier_zero_gates_conjoin_only_when_on() {
    let unsat = gate_verdict(FormalSystem::Lean, CODE, STMT, false, off(), all_pass(), &[], false);
    assert!(unsat.lexically_verified, "vacuity is reported, not enforced, when off");
    let on = TierZeroGates { hypothesis_discharge: false, vacuity: true };
    let unsat_on = gate_verdict(FormalSystem::Lean, CODE, STMT, false, on, all_pass(), &[], false);
    assert!(!unsat_on.lexically_verified);
    let cond = "theorem t (n : Nat) (h : RH) : n = n";
    let cond_code = "theorem t (n : Nat) (h : RH) : n = n := by\n  rfl\n";
    let hyp_on = TierZeroGates { hypothesis_discharge: true, vacuity: false };
    let v = gate_verdict(FormalSystem::Lean, cond_code, cond, false, hyp_on, all_pass(), &[], true);
    assert!(!v.lexically_verified, "an undesignated hypothesis fails the discharge gate");
    let v = gate_verdict(FormalSystem::Lean, cond_code, cond, false, hyp_on, all_pass(), &["h".to_string()], true);
    assert!(v.lexically_verified, "a designated input is accounted for");
}
