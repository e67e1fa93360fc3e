use theoremata_prover::formal::{FormalSystem, TierZeroGates};
use theoremata_prover::gate::{gate_verdict, LayerResults};
use theoremata_prover::replay::{assemble_source, DenyAllReplay, GateReplay, TacticReplay};
use theoremata_prover::statement_preservation::check_entry_signature;

const STMT: &str = "theorem t (n : Nat) : n = n";

fn seq(tactics: &[&str]) -> Vec<String> {
    tactics.iter().map(|t| t.to_string()).collect()
}

/// A modelled checker: every layer passes except the source scan, which is
/// clean only when the source holds `closes_on`; `erroring` stands for a
/// session that dies before reporting.
struct Stub {
    mock: bool,
    available: bool,
    erroring: bool,
    closes_on: &'static str,
}

fn live() -> Stub {
    Stub { mock: false, available: true, erroring: false, closes_on: "rfl" }
}

/// The replay's decision, composed from the library's pieces the way a
/// caller holding a backend composes them.
fn replays_closed(r: &GateReplay, stub: &Stub, tactics: &[String]) -> bool {
    let Some(code) = r.gate_source(tactics, stub.mock, stub.available) else {
        return false;
    };
    if stub.erroring {
        return false;
    }
    let layers = LayerResults {
        compiled: true,
        within_whitelist: true,
        rechecked: true,
        scan_clean: code.contains(stub.closes_on),
    };
    let verdict = gate_verdict(r.system, &code, &r.statement, stub.mock, TierZeroGates::default(), layers, &[], true);
    GateReplay::confirms(&verdict)
}

#[test]
fn a_genuinely_closing_sequence_is_confirmed() {
    let r = GateReplay::new(FormalSystem::Lean, STMT);
    assert!(replays_closed(&r, &live(), &seq(&["rfl"])));
}

#[test]
fn a_non_closing_sequence_is_refused() {
    let r = GateReplay::new(FormalSystem::Lean, STMT);
    assert!(!replays_closed(&r, &live(), &seq(&["simp", "omega"])));
}

#[test]
fn a_mock_backend_never_confirms() {
    let r = GateReplay::new(FormalSystem::Lean, STMT);
    assert!(!replays_closed(&r, &Stub { mock: true, ..live() }, &seq(&["rfl"])));
}

#[test]
fn an_unavailable_toolchain_never_confirms() {
    let r = GateReplay::new(FormalSystem::Lean, STMT);
    assert!(!replays_closed(&r, &Stub { available: false, ..live() }, &seq(&["rfl"])));
}

#[test]
fn a_backend_error_returns_false() {
    let r = GateReplay::new(FormalSystem::Lean, STMT);
    assert!(!replays_closed(&r, &Stub { erroring: true, ..live() }, &seq(&["rfl"])));
}

#[test]
fn an_empty_sequence_returns_false() {
    let r = GateReplay::new(FormalSystem::Lean, STMT);
    assert!(!replays_closed(&r, &live(), &[]));
    assert!(r.assemble(&[]).is_none());
}

#[test]
fn a_blank_tactic_returns_false() {
    let r = GateReplay::new(FormalSystem::Lean, STMT);
    assert!(!replays_closed(&r, &live(), &seq(&["rfl", "   "])));
}

#[test]
fn a_system_without_a_tactic_rendering_returns_false() {
    for system in [FormalSystem::Isabelle, FormalSystem::Candle, FormalSystem::Agda, FormalSystem::Metamath] {
        assert!(
            assemble_source(system, "", "theorem t : True", &seq(&["simp"])).is_none(),
            "{} must not get a guessed tactic-block rendering",
            system.as_str()
        );
    }
}

#[test]
fn a_statement_that_is_not_a_declaration_header_returns_false() {
    assert!(assemble_source(FormalSystem::Lean, "", "n = n", &seq(&["rfl"])).is_none());
    assert!(assemble_source(FormalSystem::Lean, "", "theorem t : True := trivial", &seq(&["rfl"])).is_none());
    assert!(assemble_source(FormalSystem::Lean, "", "   ", &seq(&["rfl"])).is_none());
}

#[test]
fn lean_assembly_puts_every_tactic_in_the_block_under_the_statement() {
    let src = assemble_source(FormalSystem::Lean, "import Mathlib\n", STMT, &seq(&["intro h", "induction n with\n| zero => rfl"]))
        .expect("a Lean header assembles");
    assert!(src.starts_with("import Mathlib\n"));
    assert!(src.contains("theorem t (n : Nat) : n = n := by\n"));
    assert!(src.contains("  intro h\n"));
    assert!(src.contains("  induction n with\n  | zero => rfl\n"));
}

#[test]
fn rocq_is_declined_rather_than_rendered() {
    assert!(theoremata_prover::formal::entry_name(FormalSystem::Rocq, "Theorem t : True").is_some());
    assert!(assemble_source(FormalSystem::Rocq, "Require Import Stdlib.\n", "Theorem t : True", &seq(&["auto", "trivial"])).is_none());
    let r = GateReplay::new(FormalSystem::Rocq, "Theorem t : True").with_preamble("From mathcomp Require Import ssreflect.\n");
    assert!(r.assemble(&seq(&["auto"])).is_none());
    assert!(!replays_closed(&r, &live(), &seq(&["auto"])));
}

#[test]
fn the_gate_still_cannot_certify_any_rocq_source() {
    let report = check_entry_signature(FormalSystem::Rocq, "Theorem t : True", "Theorem t : True.\nProof.\n  exact I.\nQed.\n");
    assert!(!report.preserved);
}

#[test]
fn deny_all_confirms_nothing() {
    let mut deny = DenyAllReplay;
    assert!(!deny.replays_closed(&[]));
    assert!(!deny.replays_closed(&seq(&["rfl"])));
}

#[test]
fn the_assembled_source_is_exact() {
    let src = assemble_source(FormalSystem::Lean, "import Mathlib", "  theorem t : True  ", &seq(&["trivial   ", "skip\r\n  done"])).unwrap();
    assert_eq!(src, "import Mathlib\n\ntheorem t : True := by\n  trivial\n  skip\n    done\n");
    let r = GateReplay::new(FormalSystem::Lean, "  theorem t : True ");
    assert_eq!(r.statement, "theorem t : True");
    assert_eq!(r.preamble, "import Mathlib\n");
    assert_eq!(GateReplay::new(FormalSystem::Agda, "x").preamble, "");
}
