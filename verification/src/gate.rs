//! The verdict of the layered verification of a submitted proof.
//!
//! A backend reports four layers for a submitted source: whether it
//! compiled, whether its axioms stay within the system's whitelist, whether
//! an independent kernel re-check passed, and whether the lexical scan of the
//! source is clean. The verdict conjoins them, fail-closed, with what this
//! library checks itself: no proof-search suggestion tactic (`apply?`,
//! `exact?`, `rfl?`) in the source, and the canonical statement both
//! mentioned and preserved by the submitted declaration. The Tier-0 gates
//! (hypothesis discharge, vacuity) are conjoined only when switched on.
use vstd::prelude::*;
use crate::formal::{statement_mentioned, statement_mentioned_spec, FormalSystem, TierZeroGates};
use crate::hypothesis_audit::{audit_hypotheses, audit_spec, report_view, HypothesisReport};
use crate::statement_preservation::{scan_escape_hatches, scan_spec, PreservationVerdict, SHatch};
use crate::statement_signature::{check_entry_signature, entry_spec, preservation_view, report_wf, PreservationReport};
use crate::text::str_eq;

verus! {

/// What the backend's own layers reported for one submission.
#[derive(Debug, Clone, Copy, PartialEq, Eq)]
pub struct LayerResults {
    /// The source compiled.
    pub compiled: bool,
    /// Every axiom the proof depends on is on the whitelist.
    pub within_whitelist: bool,
    /// The independent kernel re-check passed.
    pub rechecked: bool,
    /// The backend's lexical escape-hatch scan is clean.
    pub scan_clean: bool,
}

/// The verdict over all layers.
#[derive(Debug, Clone, Copy, PartialEq, Eq)]
pub struct GateVerdict {
    /// Every layer passed.
    pub lexically_verified: bool,
    pub axioms_clean: bool,
    pub statement_preserved: bool,
    pub lexical_clean: bool,
    /// Compiled and re-checked.
    pub hardening_clean: Option<bool>,
    /// Produced by a live toolchain, not a mock.
    pub live: bool,
}

/// Whether a hatch is a proof-search suggestion tactic.
pub open spec fn is_suggestion(h: SHatch) -> bool {
    h.rule == "apply?"@ || h.rule == "exact?"@ || h.rule == "rfl?"@
}

/// Whether the source holds a proof-search suggestion tactic outside
/// comments and strings.
pub open spec fn has_suggestion(code: Seq<char>) -> bool {
    exists|i: int| 0 <= i < scan_spec(code).len() && is_suggestion(#[trigger] scan_spec(code)[i])
}

/// Whether the submitted declaration preserves the canonical statement.
pub open spec fn entry_preserved(system: FormalSystem, stmt: Seq<char>, code: Seq<char>) -> bool {
    let v = entry_spec(system, stmt, code).verdict;
    v == PreservationVerdict::Preserved || v == PreservationVerdict::PreservedAlpha
}

/// The verdict over all layers. The statement counts as preserved when the source
/// mentions it and the declaration preserves it (a mock is held only to the
/// mention); the hypothesis audit and the vacuity result count only when
/// their switch is on.
pub open spec fn verdict_spec(
    system: FormalSystem,
    code: Seq<char>,
    stmt: Seq<char>,
    is_mock: bool,
    gates: TierZeroGates,
    layers: LayerResults,
    allow: Seq<Seq<char>>,
    bundle_satisfiable: bool,
) -> GateVerdict {
    let axioms_clean = layers.within_whitelist;
    let lexical_clean = layers.scan_clean && !has_suggestion(code);
    let kernel_clean = layers.compiled && layers.rechecked;
    let statement_preserved = statement_mentioned_spec(stmt, code) && (entry_preserved(system, stmt, code) || is_mock);
    let discharged = audit_spec(system, stmt, code, allow).clean;
    GateVerdict {
        lexically_verified: kernel_clean && axioms_clean && lexical_clean && statement_preserved
            && (!gates.hypothesis_discharge || discharged) && (!gates.vacuity || bundle_satisfiable),
        axioms_clean,
        statement_preserved,
        lexical_clean,
        hardening_clean: Some(kernel_clean),
        live: !is_mock,
    }
}

/// Whether the scan of `code` holds a suggestion tactic, computed.
fn suggestion_in(code: &str) -> (r: bool)
    ensures
        r == has_suggestion(code@),
{
    let hs = scan_escape_hatches(code);
    let mut i: usize = 0;
    while i < hs.len()
        invariant
            i <= hs@.len(),
            crate::statement_preservation::hatches_view(hs@) == scan_spec(code@),
            forall|j: int| 0 <= j < i ==> !is_suggestion(#[trigger] scan_spec(code@)[j]),
        decreases hs@.len() - i,
    {
        let rule = hs[i].rule;
        assert(scan_spec(code@)[i as int] == hs@[i as int]@);
        if str_eq(rule, "apply?") || str_eq(rule, "exact?") || str_eq(rule, "rfl?") {
            return true;
        }
        i = i + 1;
    }
    false
}

/// The verdict for `code` submitted against `stmt` (see
/// [`verdict_spec`]), from the backend's layer results, its designated
/// inputs `allowlist` and the vacuity result.
pub fn gate_verdict(
    system: FormalSystem,
    code: &str,
    stmt: &str,
    is_mock: bool,
    gates: TierZeroGates,
    layers: LayerResults,
    allowlist: &[String],
    bundle_satisfiable: bool,
) -> (r: GateVerdict)
    ensures
        r == verdict_spec(system, code@, stmt@, is_mock, gates, layers, allowlist@.map_values(|a: String| a@), bundle_satisfiable),
{
    gate_checks(system, code, stmt, is_mock, gates, layers, allowlist, bundle_satisfiable).0
}

/// [`gate_verdict`], together with the two reports it is drawn from: the
/// statement-preservation check of the submitted declaration and the
/// hypothesis audit against `allowlist`.
pub fn gate_checks(
    system: FormalSystem,
    code: &str,
    stmt: &str,
    is_mock: bool,
    gates: TierZeroGates,
    layers: LayerResults,
    allowlist: &[String],
    bundle_satisfiable: bool,
) -> (r: (GateVerdict, PreservationReport, HypothesisReport))
    ensures
        r.0 == verdict_spec(system, code@, stmt@, is_mock, gates, layers, allowlist@.map_values(|a: String| a@), bundle_satisfiable),
        report_wf(r.1),
        preservation_view(r.1) == entry_spec(system, stmt@, code@),
        report_view(r.2) == audit_spec(system, stmt@, code@, allowlist@.map_values(|a: String| a@)),
{
    let axioms_clean = layers.within_whitelist;
    let lexical_clean = layers.scan_clean && !suggestion_in(code);
    let kernel_clean = layers.compiled && layers.rechecked;
    let preservation = check_entry_signature(system, stmt, code);
    let mentioned = statement_mentioned(stmt, code);
    let statement_preserved = mentioned && (preservation.preserved || is_mock);
    let hypotheses = audit_hypotheses(system, stmt, code, allowlist);
    let discharged = hypotheses.clean;
    let v = GateVerdict {
        lexically_verified: kernel_clean && axioms_clean && lexical_clean && statement_preserved
            && (!gates.hypothesis_discharge || discharged) && (!gates.vacuity || bundle_satisfiable),
        axioms_clean,
        statement_preserved,
        lexical_clean,
        hardening_clean: Some(kernel_clean),
        live: !is_mock,
    };
    (v, preservation, hypotheses)
}

/// The verdict is fail-closed: a verified verdict means every backend layer
/// passed, no suggestion tactic was found and the statement was mentioned;
/// and a mock's verdict is never live.
pub proof fn lemma_gate_fail_closed(
    system: FormalSystem,
    code: Seq<char>,
    stmt: Seq<char>,
    is_mock: bool,
    gates: TierZeroGates,
    layers: LayerResults,
    allow: Seq<Seq<char>>,
    bundle_satisfiable: bool,
)
    ensures
        verdict_spec(system, code, stmt, is_mock, gates, layers, allow, bundle_satisfiable).lexically_verified ==> {
            &&& layers.compiled && layers.rechecked && layers.within_whitelist && layers.scan_clean
            &&& !has_suggestion(code)
            &&& statement_mentioned_spec(stmt, code)
            &&& (is_mock || entry_preserved(system, stmt, code))
        },
        is_mock ==> !verdict_spec(system, code, stmt, is_mock, gates, layers, allow, bundle_satisfiable).live,
{
}

/// Switching a Tier-0 switch on never turns a rejected submission into a
/// verified one.
pub proof fn lemma_gates_only_tighten(
    system: FormalSystem,
    code: Seq<char>,
    stmt: Seq<char>,
    is_mock: bool,
    gates: TierZeroGates,
    layers: LayerResults,
    allow: Seq<Seq<char>>,
    bundle_satisfiable: bool,
)
    ensures
        verdict_spec(system, code, stmt, is_mock, gates, layers, allow, bundle_satisfiable).lexically_verified
            ==> verdict_spec(system, code, stmt, is_mock, TierZeroGates { hypothesis_discharge: false, vacuity: false }, layers, allow, bundle_satisfiable).lexically_verified,
{
}

} // verus!
