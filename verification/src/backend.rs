//! One backend per formal system, and the layered verification that runs
//! every backend the same way.
//!
//! A backend scaffolds a workspace around the submitted source, compiles it,
//! audits its axioms against the system's whitelist, re-checks it in an
//! independent kernel and scans its text for escape hatches. The default
//! [`FormalBackend::verify_with_gates`] runs those layers in that order and
//! hands what they report to [`gate_verdict`]: a layer that errors ends the
//! run with that error, and the verdict is trusted only when every layer
//! passed.
use vstd::prelude::*;
use crate::formal::{system_tag, theorem_name_hint, theorem_name_hint_spec, views, whitelist_spec, FormalSystem, ScanReport, SessionError, TierZeroGates, UnitStatus, Workspace};
use crate::gate::{gate_checks, verdict_spec, GateVerdict, LayerResults};
use crate::hypothesis_audit::{audit_spec, report_view, HypothesisReport};
use crate::statement_signature::{entry_spec, preservation_view, report_wf, PreservationReport};
use crate::model::{status_terminal, unchanged, JobState, PollStep, ProverJobStatus};
use crate::text::{
    chars_of, class_pred, contains_at, contains_spec, lowercase, owned, string_of_range, to_lowercase, trim, trim_class,
    white_pred, CharClass,
};

verus! {

/// What compiling a workspace reported.
#[derive(Debug, Clone, PartialEq, Eq)]
pub struct CompileReport {
    pub compiled: bool,
    pub errors: Vec<String>,
    /// Per-declaration status; empty when the backend does not break the
    /// artifact down.
    pub per_unit: Vec<UnitStatus>,
}

/// What the axiom audit reported.
#[derive(Debug, Clone, PartialEq, Eq)]
pub struct AxiomReport {
    pub axioms: Vec<String>,
    pub within_whitelist: bool,
}

/// What the independent kernel re-check reported.
#[derive(Debug, Clone, PartialEq, Eq)]
pub struct RecheckReport {
    pub rechecked: bool,
}

/// The model of a pinned toolchain revision, when there is one.
pub type ToolchainView = Option<Seq<char>>;

/// The model of a list of names.
pub type NamesView = Seq<Seq<char>>;

/// The model of a text.
pub type TextView = Seq<char>;

/// A formal system's backend. The layer methods are the backend's own;
/// [`verify_with_gates`](FormalBackend::verify_with_gates) runs them.
pub trait FormalBackend {
    /// The system this backend checks, as a value.
    spec fn system_spec(&self) -> FormalSystem;

    /// Whether the backend is a mock, as a value.
    spec fn mock_spec(&self) -> bool;

    /// The toolchain revision the backend is pinned to, as a value.
    spec fn expected_toolchain_spec(&self) -> ToolchainView;

    /// The backend's designated inputs, as a value.
    spec fn designated_inputs_spec(&self) -> NamesView;

    /// What the backend may answer when probed for its toolchain.
    spec fn available_ok(&self, r: bool) -> bool;

    /// What scaffolding `code` with entry `name` may give.
    spec fn scaffold_ok(&self, code: TextView, name: TextView, r: Result<Workspace, String>) -> bool;

    /// What compiling `ws` may report.
    spec fn compile_ok(&self, ws: Workspace, r: Result<CompileReport, String>) -> bool;

    /// What auditing the axioms of `thm` in `ws` against `whitelist` may
    /// report.
    spec fn audit_ok(&self, ws: Workspace, thm: TextView, whitelist: NamesView, r: Result<AxiomReport, String>) -> bool;

    /// What re-checking `ws` may report.
    spec fn recheck_ok(&self, ws: Workspace, r: Result<RecheckReport, String>) -> bool;

    /// What scanning `code` may report.
    spec fn scan_ok(&self, code: TextView, r: Result<ScanReport, String>) -> bool;

    /// The system this backend checks.
    fn system(&self) -> (r: FormalSystem)
        ensures
            r == self.system_spec(),
    ;

    /// Whether the compile, axiom and kernel layers are canned rather than a
    /// live toolchain.
    fn is_mock(&self) -> (r: bool)
        ensures
            r == self.mock_spec(),
    ;

    /// Whether the toolchain is usable right now.
    fn available(&self) -> (r: bool)
        ensures
            self.available_ok(r),
    ;

    /// The toolchain revision the backend is pinned to, when known.
    fn expected_toolchain(&self) -> (r: Option<String>)
        ensures
            match r {
                Some(t) => self.expected_toolchain_spec() == Some(t@),
                None => self.expected_toolchain_spec() is None,
            },
    ;

    /// Reject a project whose pinned toolchain differs from the backend's,
    /// before any work (see [`precheck_spec`]).
    fn precheck(&self, declared: Option<&str>) -> (r: PrecheckReport)
        ensures
            (r.compatible, r.reason@) == precheck_spec(self.system_spec(), opt_seq(declared), self.expected_toolchain_spec()),
    {
        let expected = self.expected_toolchain();
        let e = match &expected {
            Some(s) => Some(s.as_str()),
            None => None,
        };
        precheck_compat(self.system(), declared, e)
    }

    /// The hypotheses the job legitimately assumes, by binder name or by
    /// type head.
    fn designated_inputs(&self) -> (r: Vec<String>)
        ensures
            r@.map_values(|a: String| a@) == self.designated_inputs_spec(),
    ;

    /// Build a workspace around `code`, its entry named after `name`.
    fn scaffold(&self, code: &str, name: &str) -> (r: Result<Workspace, String>)
        ensures
            self.scaffold_ok(code@, name@, r),
    ;

    /// Compile the workspace.
    fn compile(&self, ws: &Workspace) -> (r: Result<CompileReport, String>)
        ensures
            self.compile_ok(*ws, r),
    ;

    /// Audit the entry's axioms against `whitelist`.
    fn audit_axioms(&self, ws: &Workspace, thm: &str, whitelist: &[String]) -> (r: Result<AxiomReport, String>)
        ensures
            self.audit_ok(*ws, thm@, whitelist@.map_values(|a: String| a@), r),
    ;

    /// Re-check the compiled artifact in an independent kernel.
    fn kernel_recheck(&self, ws: &Workspace) -> (r: Result<RecheckReport, String>)
        ensures
            self.recheck_ok(*ws, r),
    ;

    /// Scan the raw source for escape hatches.
    fn source_scan(&self, code: &str) -> (r: Result<ScanReport, String>)
        ensures
            self.scan_ok(code@, r),
    ;

    /// Run every layer over `code` submitted against `stmt` and conjoin
    /// them (see [`gate_run_holds`]): the first layer that errors ends the
    /// run with its error; otherwise the verdict is that of the layers'
    /// reports, with the backend's designated inputs and the vacuity result
    /// `bundle_satisfiable`, and every report goes into the detail.
    fn verify_with_gates(&self, code: &str, stmt: &str, gates: TierZeroGates, bundle_satisfiable: bool) -> (r: Result<GateReport, String>)
        ensures
            match r {
                Ok(rep) => exists|ws: Workspace| #[trigger]
                    self.scaffold_ok(code@, theorem_name_hint_spec(stmt@), Ok(ws)) && {
                        let d = rep.detail;
                        let system = self.system_spec();
                        &&& self.compile_ok(ws, Ok(d.compile))
                        &&& self.audit_ok(ws, ws.entry@, whitelist_spec(system), Ok(d.axioms))
                        &&& self.recheck_ok(ws, Ok(d.kernel_recheck))
                        &&& self.scan_ok(code@, Ok(d.source_scan))
                        &&& rep.verdict == verdict_spec(
                            system,
                            code@,
                            stmt@,
                            self.mock_spec(),
                            gates,
                            layers_of(d.compile, d.axioms, d.kernel_recheck, d.source_scan),
                            self.designated_inputs_spec(),
                            bundle_satisfiable,
                        )
                        &&& d.system == system
                        &&& views(d.whitelist@) == whitelist_spec(system)
                        &&& d.gates == gates
                        &&& views(d.designated_inputs@) == self.designated_inputs_spec()
                        &&& report_wf(d.statement_preservation)
                        &&& preservation_view(d.statement_preservation) == entry_spec(system, stmt@, code@)
                        &&& report_view(d.hypothesis_audit) == audit_spec(system, stmt@, code@, self.designated_inputs_spec())
                        &&& d.bundle_satisfiable == bundle_satisfiable
                    },
                Err(e) => self.scaffold_ok(code@, theorem_name_hint_spec(stmt@), Err(e)) || exists|ws: Workspace| #[trigger]
                    self.scaffold_ok(code@, theorem_name_hint_spec(stmt@), Ok(ws)) && (self.compile_ok(ws, Err(e))
                        || exists|c: CompileReport| #[trigger]
                        self.compile_ok(ws, Ok(c)) && (self.audit_ok(ws, ws.entry@, whitelist_spec(self.system_spec()), Err(e))
                            || exists|a: AxiomReport| #[trigger]
                            self.audit_ok(ws, ws.entry@, whitelist_spec(self.system_spec()), Ok(a)) && (self.recheck_ok(
                                ws,
                                Err(e),
                            ) || exists|k: RecheckReport| #[trigger]
                                self.recheck_ok(ws, Ok(k)) && self.scan_ok(code@, Err(e))))),
            },
    {
        let system = self.system();
        let name = theorem_name_hint(stmt);
        let ws = match self.scaffold(code, name.as_str()) {
            Ok(w) => w,
            Err(e) => { return Err(e); },
        };
        let compile = match self.compile(&ws) {
            Ok(c) => c,
            Err(e) => {
                assert(self.scaffold_ok(code@, theorem_name_hint_spec(stmt@), Ok(ws)));
                return Err(e);
            },
        };
        let whitelist = system.axiom_whitelist();
        let axioms = match self.audit_axioms(&ws, ws.entry.as_str(), whitelist.as_slice()) {
            Ok(a) => a,
            Err(e) => {
                assert(self.scaffold_ok(code@, theorem_name_hint_spec(stmt@), Ok(ws)));
                assert(self.compile_ok(ws, Ok(compile)));
                return Err(e);
            },
        };
        let recheck = match self.kernel_recheck(&ws) {
            Ok(k) => k,
            Err(e) => {
                assert(self.scaffold_ok(code@, theorem_name_hint_spec(stmt@), Ok(ws)));
                assert(self.compile_ok(ws, Ok(compile)));
                assert(self.audit_ok(ws, ws.entry@, whitelist_spec(self.system_spec()), Ok(axioms)));
                return Err(e);
            },
        };
        let scan = match self.source_scan(code) {
            Ok(s) => s,
            Err(e) => {
                assert(self.scaffold_ok(code@, theorem_name_hint_spec(stmt@), Ok(ws)));
                assert(self.compile_ok(ws, Ok(compile)));
                assert(self.audit_ok(ws, ws.entry@, whitelist_spec(self.system_spec()), Ok(axioms)));
                assert(self.recheck_ok(ws, Ok(recheck)));
                return Err(e);
            },
        };
        let layers = LayerResults {
            compiled: compile.compiled,
            within_whitelist: axioms.within_whitelist,
            rechecked: recheck.rechecked,
            scan_clean: scan.clean,
        };
        let allowlist = self.designated_inputs();
        let mock = self.is_mock();
        let (verdict, preservation, hypotheses) = gate_checks(
            system,
            code,
            stmt,
            mock,
            gates,
            layers,
            allowlist.as_slice(),
            bundle_satisfiable,
        );
        let detail = GateDetail {
            system,
            compile,
            axioms,
            kernel_recheck: recheck,
            source_scan: scan,
            statement_preservation: preservation,
            whitelist,
            gates,
            designated_inputs: allowlist,
            hypothesis_audit: hypotheses,
            bundle_satisfiable,
        };
        let rep = GateReport { verdict, detail };
        assert(self.scaffold_ok(code@, theorem_name_hint_spec(stmt@), Ok(ws)));
        Ok(rep)
    }
}

/// The detail of a run of the layers: the system, each layer's report, the
/// whitelist the axioms were audited against, the check of the submitted
/// declaration, and the Tier-0 inputs and reports (each counts in
/// the verdict only when its switch in `gates` is on).
#[derive(Debug, Clone, PartialEq, Eq)]
pub struct GateDetail {
    pub system: FormalSystem,
    pub compile: CompileReport,
    pub axioms: AxiomReport,
    pub kernel_recheck: RecheckReport,
    pub source_scan: ScanReport,
    pub statement_preservation: PreservationReport,
    pub whitelist: Vec<String>,
    pub gates: TierZeroGates,
    pub designated_inputs: Vec<String>,
    pub hypothesis_audit: HypothesisReport,
    /// The vacuity result the run was given.
    pub bundle_satisfiable: bool,
}

/// The result of a layered run: the verdict and its detail.
#[derive(Debug, Clone, PartialEq, Eq)]
pub struct GateReport {
    pub verdict: GateVerdict,
    pub detail: GateDetail,
}

/// The layer results read off the layers' reports.
pub open spec fn layers_of(c: CompileReport, a: AxiomReport, k: RecheckReport, s: ScanReport) -> LayerResults {
    LayerResults { compiled: c.compiled, within_whitelist: a.within_whitelist, rechecked: k.rechecked, scan_clean: s.clean }
}

/// Whether `rep` is what a run of `b` gives when scaffolding produced `ws`
/// and every later layer answered with the report recorded in `rep`.
pub open spec fn run_ok_with<B: FormalBackend + ?Sized>(
    b: &B,
    code: Seq<char>,
    stmt: Seq<char>,
    gates: TierZeroGates,
    bundle_satisfiable: bool,
    rep: GateReport,
    ws: Workspace,
) -> bool {
    let d = rep.detail;
    let system = b.system_spec();
    &&& b.compile_ok(ws, Ok(d.compile))
    &&& b.audit_ok(ws, ws.entry@, whitelist_spec(system), Ok(d.axioms))
    &&& b.recheck_ok(ws, Ok(d.kernel_recheck))
    &&& b.scan_ok(code, Ok(d.source_scan))
    &&& rep.verdict == verdict_spec(
        system,
        code,
        stmt,
        b.mock_spec(),
        gates,
        layers_of(d.compile, d.axioms, d.kernel_recheck, d.source_scan),
        b.designated_inputs_spec(),
        bundle_satisfiable,
    )
    &&& d.system == system
    &&& views(d.whitelist@) == whitelist_spec(system)
    &&& d.gates == gates
    &&& views(d.designated_inputs@) == b.designated_inputs_spec()
    &&& report_wf(d.statement_preservation)
    &&& preservation_view(d.statement_preservation) == entry_spec(system, stmt, code)
    &&& report_view(d.hypothesis_audit) == audit_spec(system, stmt, code, b.designated_inputs_spec())
    &&& d.bundle_satisfiable == bundle_satisfiable
}

/// What a layered run of `b` over `code` against `stmt` gives: on success,
/// a report whose layers are what the backend answered in order (scaffold
/// with the entry named after the statement, compile, audit against the
/// system's whitelist, re-check, scan); on failure, the error of the first
/// layer that failed, every earlier one having succeeded.
pub open spec fn gate_run_holds<B: FormalBackend + ?Sized>(
    b: &B,
    code: Seq<char>,
    stmt: Seq<char>,
    gates: TierZeroGates,
    bundle_satisfiable: bool,
    r: Result<GateReport, String>,
) -> bool {
    let name = theorem_name_hint_spec(stmt);
    let wl = whitelist_spec(b.system_spec());
    match r {
        Ok(rep) => exists|ws: Workspace|
            b.scaffold_ok(code, name, Ok(ws)) && #[trigger] run_ok_with(b, code, stmt, gates, bundle_satisfiable, rep, ws),
        Err(e) => b.scaffold_ok(code, name, Err(e)) || exists|ws: Workspace| #[trigger]
            b.scaffold_ok(code, name, Ok(ws)) && (b.compile_ok(ws, Err(e)) || exists|c: CompileReport| #[trigger]
                b.compile_ok(ws, Ok(c)) && (b.audit_ok(ws, ws.entry@, wl, Err(e)) || exists|a: AxiomReport| #[trigger]
                    b.audit_ok(ws, ws.entry@, wl, Ok(a)) && (b.recheck_ok(ws, Err(e)) || exists|k: RecheckReport| #[trigger]
                        b.recheck_ok(ws, Ok(k)) && b.scan_ok(code, Err(e))))),
    }
}

/// The result of the toolchain precheck.
#[derive(Debug, Clone, PartialEq, Eq)]
pub struct PrecheckReport {
    pub compatible: bool,
    /// Why not, when incompatible (empty when compatible).
    pub reason: String,
}

impl PrecheckReport {
    /// A compatible report.
    pub fn ok() -> (r: Self)
        ensures
            r.compatible && r.reason@.len() == 0,
    {
        PrecheckReport { compatible: true, reason: String::new() }
    }

    /// An incompatible report with `reason`.
    pub fn reject(reason: &str) -> (r: Self)
        ensures
            !r.compatible && r.reason@ == reason@,
    {
        PrecheckReport { compatible: false, reason: owned(reason) }
    }
}

/// The view of an optional string slice.
pub open spec fn opt_seq(o: Option<&str>) -> Option<Seq<char>> {
    match o {
        Some(s) => Some(s@),
        None => None,
    }
}

/// A pinned revision as the precheck reads it: trimmed, and absent when
/// blank.
pub open spec fn pinned(o: Option<Seq<char>>) -> Option<Seq<char>> {
    match o {
        Some(s) => if trim(s, white_pred()).len() > 0 { Some(trim(s, white_pred())) } else { None },
        None => None,
    }
}

/// The precheck: incompatible exactly when both the project and the backend
/// pin a revision and the two differ, with a reason naming both; compatible
/// otherwise.
pub open spec fn precheck_spec(system: FormalSystem, declared: Option<Seq<char>>, expected: Option<Seq<char>>) -> (bool, Seq<char>) {
    match (pinned(declared), pinned(expected)) {
        (Some(d), Some(e)) => if d != e {
            (false, system_tag(system) + " toolchain mismatch: project pins `"@ + d + "` but backend is `"@ + e + "`"@)
        } else {
            (true, Seq::empty())
        },
        _ => (true, Seq::empty()),
    }
}

/// The trimmed form of an optional setting, absent when blank.
fn pinned_of(o: Option<&str>) -> (r: Option<String>)
    ensures
        match r {
            Some(s) => pinned(opt_seq(o)) == Some(s@),
            None => pinned(opt_seq(o)) is None,
        },
{
    match o {
        Some(s) => {
            let v = chars_of(s);
            let (a, b) = trim_class(&v, 0, v.len(), CharClass::White);
            proof {
                assert(class_pred(CharClass::White) == white_pred());
                assert(v@.subrange(0, v@.len() as int) == v@);
            }
            if a == b {
                None
            } else {
                Some(string_of_range(&v, a, b))
            }
        },
        None => None,
    }
}

/// Compare the project's pinned toolchain `declared` with the backend's
/// `expected` one (see [`precheck_spec`]).
pub fn precheck_compat(system: FormalSystem, declared: Option<&str>, expected: Option<&str>) -> (r: PrecheckReport)
    ensures
        (r.compatible, r.reason@) == precheck_spec(system, opt_seq(declared), opt_seq(expected)),
{
    match (pinned_of(declared), pinned_of(expected)) {
        (Some(d), Some(e)) => {
            if !crate::text::str_eq(d.as_str(), e.as_str()) {
                let mut m = owned(system.as_str());
                m.append(" toolchain mismatch: project pins `");
                m.append(d.as_str());
                m.append("` but backend is `");
                m.append(e.as_str());
                m.append("`");
                PrecheckReport::reject(m.as_str())
            } else {
                PrecheckReport::ok()
            }
        },
        _ => PrecheckReport::ok(),
    }
}

/// The result of submitting a whole unit to a session.
#[derive(Debug, Clone, PartialEq, Eq)]
pub struct UnitResult {
    pub ok: bool,
    pub messages: Vec<String>,
}

/// A proof-state handle after one tactic step.
#[derive(Debug, Clone, Copy, PartialEq, Eq)]
pub struct StateResult {
    pub state: u64,
    pub finished: bool,
}

/// The pretty-printed goals at a proof state.
#[derive(Debug, Clone, PartialEq, Eq)]
pub struct GoalState {
    pub goals: Vec<String>,
}

/// A warm proof session: whole units for every system, tactic steps where
/// the system has them.
pub trait ProofSession {
    /// Warm the driver.
    fn start(&mut self) -> Result<(), SessionError>;

    /// Submit a whole theory or file.
    fn submit_unit(&mut self, code: &str) -> Result<UnitResult, SessionError>;

    /// Advance one tactic from proof state `state`.
    fn step_tactic(&mut self, state: u64, tactic: &str) -> Result<StateResult, SessionError>
        requires
            state < u64::MAX,
    ;

    /// The goals at proof state `state`.
    fn goal_state(&self, state: u64) -> Result<GoalState, SessionError>;
}

/// What a live run of a proof job came to: its status, the report when the
/// layers ran to the end, and a message.
#[derive(Debug, Clone, PartialEq, Eq)]
pub struct LiveOutcome {
    pub status: ProverJobStatus,
    pub verification: Option<GateReport>,
    pub message: String,
}

/// The outcome of a live run, fail-closed: an incompatible toolchain or an
/// unavailable one is an error before any work; a job without a candidate
/// proof fails; otherwise the layers decide (an error running them is an
/// error, a verified verdict proves the job, any other verdict fails it).
pub open spec fn live_spec(
    system: FormalSystem,
    compatible: bool,
    reason: Seq<char>,
    available: bool,
    code: Option<Seq<char>>,
    run: Result<GateReport, String>,
) -> (ProverJobStatus, Option<GateReport>, Seq<char>) {
    if !compatible {
        (ProverJobStatus::Error, None, "precheck rejected: "@ + reason)
    } else if !available {
        (ProverJobStatus::Error, None, system_tag(system) + " toolchain unavailable (fail-closed)"@)
    } else {
        match code {
            None => (ProverJobStatus::Failed, None, "live job requires a candidate proof in task.stub"@),
            Some(_) => match run {
                Ok(v) => if v.verdict.lexically_verified {
                    (ProverJobStatus::Proved, Some(v), "live: verified through the 3+1-layer gate"@)
                } else {
                    (ProverJobStatus::Failed, Some(v), "live: rejected by the 3+1-layer gate"@)
                },
                Err(e) => (ProverJobStatus::Error, None, "live verify error: "@ + e@),
            },
        }
    }
}

/// The model of a live outcome.
pub open spec fn live_view(o: LiveOutcome) -> (ProverJobStatus, Option<GateReport>, Seq<char>) {
    (o.status, o.verification, o.message@)
}

/// Decide the outcome of a live run from the precheck, the toolchain probe,
/// the candidate proof and the layered run's result (see [`live_spec`]; the
/// run's result is read only when the first three allow a run).
pub fn live_decision(
    system: FormalSystem,
    precheck: &PrecheckReport,
    available: bool,
    code: Option<&str>,
    run: Result<GateReport, String>,
) -> (r: LiveOutcome)
    ensures
        live_view(r) == live_spec(system, precheck.compatible, precheck.reason@, available, opt_seq(code), run),
{
    if !precheck.compatible {
        let mut m = owned("precheck rejected: ");
        m.append(precheck.reason.as_str());
        return LiveOutcome { status: ProverJobStatus::Error, verification: None, message: m };
    }
    if !available {
        let mut m = owned(system.as_str());
        m.append(" toolchain unavailable (fail-closed)");
        return LiveOutcome { status: ProverJobStatus::Error, verification: None, message: m };
    }
    match code {
        None => LiveOutcome {
            status: ProverJobStatus::Failed,
            verification: None,
            message: owned("live job requires a candidate proof in task.stub"),
        },
        Some(_) => match run {
            Ok(v) => if v.verdict.lexically_verified {
                LiveOutcome {
                    status: ProverJobStatus::Proved,
                    verification: Some(v),
                    message: owned("live: verified through the 3+1-layer gate"),
                }
            } else {
                LiveOutcome {
                    status: ProverJobStatus::Failed,
                    verification: Some(v),
                    message: owned("live: rejected by the 3+1-layer gate"),
                }
            },
            Err(e) => {
                let mut m = owned("live verify error: ");
                m.append(e.as_str());
                LiveOutcome { status: ProverJobStatus::Error, verification: None, message: m }
            },
        },
    }
}

/// Run a proof job live on `backend`: precheck the project's pinned
/// toolchain `declared`, probe the toolchain when the precheck passed, and
/// run the layers over the candidate proof `code` against `statement` when
/// both allow it. The outcome is [`live_spec`] of the backend's precheck,
/// its probe's answer and the run's result (see [`gate_run_holds`]).
pub fn live_run<B: FormalBackend>(
    backend: &B,
    declared: Option<&str>,
    code: Option<&str>,
    statement: &str,
    gates: TierZeroGates,
    bundle_satisfiable: bool,
) -> (r: LiveOutcome)
    ensures
        exists|available: bool, run: Result<GateReport, String>|
            live_view(r) == #[trigger] live_spec(
                backend.system_spec(),
                precheck_spec(backend.system_spec(), opt_seq(declared), backend.expected_toolchain_spec()).0,
                precheck_spec(backend.system_spec(), opt_seq(declared), backend.expected_toolchain_spec()).1,
                available,
                opt_seq(code),
                run,
            ) && (precheck_spec(backend.system_spec(), opt_seq(declared), backend.expected_toolchain_spec()).0
                ==> backend.available_ok(available)) && (code is Some && precheck_spec(
                backend.system_spec(),
                opt_seq(declared),
                backend.expected_toolchain_spec(),
            ).0 && available ==> gate_run_holds(backend, code.unwrap()@, statement@, gates, bundle_satisfiable, run)),
{
    let system = backend.system();
    let precheck = backend.precheck(declared);
    let available = if precheck.compatible { backend.available() } else { false };
    let run: Result<GateReport, String> = match code {
        Some(c) => if precheck.compatible && available {
            let out = backend.verify_with_gates(c, statement, gates, bundle_satisfiable);
            proof {
                match out {
                    Ok(ref rep) => {
                        let rep = *rep;
                        let ws = choose|ws: Workspace|
                            #[trigger] backend.scaffold_ok(c@, theorem_name_hint_spec(statement@), Ok(ws)) && {
                                let d = rep.detail;
                                let system = backend.system_spec();
                                &&& backend.compile_ok(ws, Ok(d.compile))
                                &&& backend.audit_ok(ws, ws.entry@, whitelist_spec(system), Ok(d.axioms))
                                &&& backend.recheck_ok(ws, Ok(d.kernel_recheck))
                                &&& backend.scan_ok(c@, Ok(d.source_scan))
                                &&& rep.verdict == verdict_spec(
                                    system,
                                    c@,
                                    statement@,
                                    backend.mock_spec(),
                                    gates,
                                    layers_of(d.compile, d.axioms, d.kernel_recheck, d.source_scan),
                                    backend.designated_inputs_spec(),
                                    bundle_satisfiable,
                                )
                                &&& d.system == system
                                &&& views(d.whitelist@) == whitelist_spec(system)
                                &&& d.gates == gates
                                &&& views(d.designated_inputs@) == backend.designated_inputs_spec()
                                &&& report_wf(d.statement_preservation)
                                &&& preservation_view(d.statement_preservation) == entry_spec(system, statement@, c@)
                                &&& report_view(d.hypothesis_audit) == audit_spec(
                                    system,
                                    statement@,
                                    c@,
                                    backend.designated_inputs_spec(),
                                )
                                &&& d.bundle_satisfiable == bundle_satisfiable
                            };
                        assert(run_ok_with(backend, c@, statement@, gates, bundle_satisfiable, rep, ws));
                    },
                    Err(_) => {},
                }
                assert(gate_run_holds(backend, c@, statement@, gates, bundle_satisfiable, out));
            }
            out
        } else {
            Err(String::new())
        },
        None => Err(String::new()),
    };
    let ghost rv = run;
    let r = live_decision(system, &precheck, available, code, run);
    assert(live_view(r) == live_spec(
        backend.system_spec(),
        precheck_spec(backend.system_spec(), opt_seq(declared), backend.expected_toolchain_spec()).0,
        precheck_spec(backend.system_spec(), opt_seq(declared), backend.expected_toolchain_spec()).1,
        available,
        opt_seq(code),
        rv,
    ));
    r
}

/// The Rocq escape hatches that the axiom report and the kernel re-check do
/// not catch, matched in the lowercased source.
pub open spec fn rocq_patterns() -> Seq<Seq<char>> {
    seq!["admitted"@, "axiom "@, "-type-in-type"@, "type_in_type"@, "unset universe checking"@, "bypass_check"@]
}

/// The Rocq patterns among the first `n` that occur in `lowered`, in order.
pub open spec fn rocq_findings_upto(lowered: Seq<char>, n: int) -> Seq<Seq<char>>
    decreases n,
{
    if n <= 0 || n > rocq_patterns().len() {
        Seq::empty()
    } else if contains_spec(lowered, rocq_patterns()[n - 1]) {
        rocq_findings_upto(lowered, n - 1).push(rocq_patterns()[n - 1])
    } else {
        rocq_findings_upto(lowered, n - 1)
    }
}

/// The Rocq patterns that occur in the lowercased `code`.
pub open spec fn rocq_findings(code: Seq<char>) -> Seq<Seq<char>> {
    rocq_findings_upto(lowercase(code), 6)
}

/// Whether the Rocq backend runs as a mock: when the configuration says so;
/// else as the `THEOREMATA_ROCQ_MOCK` setting says (`1` or `true` in any
/// case); and, when that setting is absent, exactly when no Rocq command is
/// configured.
pub open spec fn rocq_mock_spec(prover_mock: bool, mock_setting: Option<Seq<char>>, command_set: bool) -> bool {
    prover_mock || match mock_setting {
        Some(v) => v == "1"@ || (v.len() == 4 && ascii_lower_seq(v) == "true"@),
        None => !command_set,
    }
}

/// `s` with its ASCII capitals lowered.
pub open spec fn ascii_lower_seq(s: Seq<char>) -> Seq<char> {
    s.map_values(|c: char| crate::text::ascii_lower(c))
}

/// [`rocq_mock_spec`] computed from the configuration flag, the mock
/// setting and whether a Rocq command is configured.
pub fn rocq_mock_enabled(prover_mock: bool, mock_setting: Option<&str>, command_set: bool) -> (r: bool)
    ensures
        r == rocq_mock_spec(prover_mock, opt_seq(mock_setting), command_set),
{
    if prover_mock {
        return true;
    }
    match mock_setting {
        Some(v) => {
            let cv = chars_of(v);
            if crate::text::str_eq(v, "1") {
                return true;
            }
            if cv.len() != 4 {
                return false;
            }
            let low = crate::text::ascii_lower_range(&cv, 0, 4);
            proof {
                assert(cv@.subrange(0, 4) == cv@);
            }
            let t = chars_of("true");
            let r = crate::text::chars_eq(&low, &t);
            proof {
                assert(low@ =~= ascii_lower_seq(v@));
            }
            r
        },
        None => !command_set,
    }
}

/// The last `.`-separated segment of a theorem's full name.
pub open spec fn short_name(full: Seq<char>) -> Seq<char> {
    match crate::text::last_index_of(full, '.') {
        Some(k) => full.skip(k + 1),
        None => full,
    }
}

/// The canned Rocq proof of the mock backend for a theorem named `full`.
pub open spec fn mock_rocq_solution_spec(full: Seq<char>) -> Seq<char> {
    "(* Mock Rocq proof. *)\nTheorem "@ + short_name(full) + " : True.\nProof.\n  exact I.\nQed.\n"@
}

/// The mock backend's proof for the theorem named `full_name` (see
/// [`mock_rocq_solution_spec`]).
pub fn mock_rocq_solution(full_name: &str) -> (r: String)
    ensures
        r@ == mock_rocq_solution_spec(full_name@),
{
    let v = chars_of(full_name);
    let start = match crate::text::rfind_char(&v, 0, v.len(), '.') {
        Some(k) => k + 1,
        None => 0,
    };
    proof {
        assert(v@.subrange(0, v@.len() as int) == v@);
    }
    let mut out = owned("(* Mock Rocq proof. *)\nTheorem ");
    crate::text::push_range(&mut out, &v, start, v.len());
    out.append(" : True.\nProof.\n  exact I.\nQed.\n");
    assert(v@.subrange(start as int, v@.len() as int) == short_name(full_name@));
    out
}

/// One poll of a mock Rocq job: the first poll leaves it in progress; any
/// later one proves it with the canned proof.
pub open spec fn mock_poll_spec(poll_count: u32, full: Seq<char>) -> (ProverJobStatus, Option<Seq<char>>, Seq<char>) {
    if poll_count == 0 {
        (ProverJobStatus::InProgress, None, "mock: working"@)
    } else {
        (ProverJobStatus::Proved, Some(mock_rocq_solution_spec(full)), "mock: proved"@)
    }
}

/// Advance a mock Rocq job that has been polled `poll_count` times (see
/// [`mock_poll_spec`]): its status, its proof once proved, and a message.
pub fn advance_mock(poll_count: u32, full_name: &str) -> (r: (ProverJobStatus, Option<String>, String))
    ensures
        (r.0, match r.1 { Some(c) => Some(c@), None => None }, r.2@) == mock_poll_spec(poll_count, full_name@),
{
    if poll_count == 0 {
        (ProverJobStatus::InProgress, None, owned("mock: working"))
    } else {
        (ProverJobStatus::Proved, Some(mock_rocq_solution(full_name)), owned("mock: proved"))
    }
}

/// Why a poll of a live Rocq job is refused.
pub const LIVE_ROCQ_UNAVAILABLE: &'static str = "live Rocq backend is not wired yet (Phase 2); set prover_mock or THEOREMATA_ROCQ_MOCK";

/// One poll of a Rocq job: a finished job stays as it is; a live job cannot
/// be polled; a mock job advances as [`mock_poll_spec`] says, with one more
/// poll, progress at two fifths and then full, and is finished once proved.
/// Besides the step, the proof (once proved) and the message of the result.
pub open spec fn rocq_poll_spec(s: JobState, mock: bool, full: Seq<char>) -> Result<
    (PollStep, Option<Seq<char>>, Option<Seq<char>>),
    Seq<char>,
> {
    if status_terminal(s.status) {
        Ok((unchanged(s), None, None))
    } else if !mock {
        Err(LIVE_ROCQ_UNAVAILABLE@)
    } else {
        let m = mock_poll_spec(s.poll_count, full);
        Ok((
            PollStep {
                next: JobState {
                    status: m.0,
                    poll_count: (s.poll_count + 1) as u32,
                    percent: if s.poll_count == 0 { 40 } else { 100 },
                },
                completed: status_terminal(m.0),
            },
            m.1,
            Some(m.2),
        ))
    }
}

/// Poll a Rocq job (see [`rocq_poll_spec`]).
pub fn rocq_poll_step(s: JobState, mock: bool, full_name: &str) -> (r: Result<(PollStep, Option<String>, Option<String>), String>)
    requires
        !status_terminal(s.status) && mock ==> s.poll_count < u32::MAX,
    ensures
        match (r, rocq_poll_spec(s, mock, full_name@)) {
            (Ok(got), Ok(want)) => got.0 == want.0 && match (got.1, want.1) {
                (Some(a), Some(b)) => a@ == b,
                (None, None) => true,
                _ => false,
            } && match (got.2, want.2) {
                (Some(a), Some(b)) => a@ == b,
                (None, None) => true,
                _ => false,
            },
            (Err(e), Err(want)) => e@ == want,
            _ => false,
        },
{
    if s.status.is_terminal() {
        return Ok((PollStep { next: s, completed: false }, None, None));
    }
    if !mock {
        return Err(owned(LIVE_ROCQ_UNAVAILABLE));
    }
    let (status, code, message) = advance_mock(s.poll_count, full_name);
    let percent: u32 = if s.poll_count == 0 { 40 } else { 100 };
    let step = PollStep {
        next: JobState { status, poll_count: s.poll_count + 1, percent },
        completed: status.is_terminal(),
    };
    Ok((step, code, Some(message)))
}

/// The Rocq backend. As a mock its compile, axiom and kernel layers report
/// canned success; live, those layers are not available and report an
/// error. The source scan always runs.
#[derive(Debug, Clone, Copy, PartialEq, Eq)]
pub struct RocqBackend {
    pub mock: bool,
}

impl FormalBackend for RocqBackend {
    open spec fn system_spec(&self) -> FormalSystem {
        FormalSystem::Rocq
    }

    open spec fn mock_spec(&self) -> bool {
        self.mock
    }

    open spec fn expected_toolchain_spec(&self) -> ToolchainView {
        None
    }

    open spec fn designated_inputs_spec(&self) -> NamesView {
        Seq::empty()
    }

    open spec fn available_ok(&self, r: bool) -> bool {
        r
    }

    open spec fn scaffold_ok(&self, code: TextView, name: TextView, r: Result<Workspace, String>) -> bool {
        match r {
            Ok(w) => w.system == FormalSystem::Rocq && w.root@ == "."@ && w.source_path@ == name + ".v"@ && w.entry@
                == name,
            Err(_) => false,
        }
    }

    open spec fn compile_ok(&self, ws: Workspace, r: Result<CompileReport, String>) -> bool {
        match r {
            Ok(c) => self.mock && c.compiled && c.errors@.len() == 0 && c.per_unit@.len() == 0,
            Err(e) => !self.mock && e@ == "live Rocq compile not wired yet (Phase 2)"@,
        }
    }

    open spec fn audit_ok(&self, ws: Workspace, thm: TextView, whitelist: NamesView, r: Result<AxiomReport, String>) -> bool {
        match r {
            Ok(a) => self.mock && a.within_whitelist && a.axioms@.len() == 0,
            Err(e) => !self.mock && e@ == "live Rocq axiom audit not wired yet (Phase 2)"@,
        }
    }

    open spec fn recheck_ok(&self, ws: Workspace, r: Result<RecheckReport, String>) -> bool {
        match r {
            Ok(k) => self.mock && k.rechecked,
            Err(e) => !self.mock && e@ == "live Rocq kernel recheck not wired yet (Phase 2)"@,
        }
    }

    open spec fn scan_ok(&self, code: TextView, r: Result<ScanReport, String>) -> bool {
        match r {
            Ok(s) => s.findings@.map_values(|f: String| f@) == rocq_findings(code) && s.clean == (rocq_findings(code).len()
                == 0),
            Err(_) => false,
        }
    }

    fn system(&self) -> (r: FormalSystem)
        ensures
            r == FormalSystem::Rocq,
    {
        FormalSystem::Rocq
    }

    fn is_mock(&self) -> (r: bool)
        ensures
            r == self.mock,
    {
        self.mock
    }

    fn available(&self) -> (r: bool)
        ensures
            r,
    {
        true
    }

    fn expected_toolchain(&self) -> (r: Option<String>)
        ensures
            r is None,
    {
        None
    }

    fn designated_inputs(&self) -> (r: Vec<String>)
        ensures
            r@.len() == 0,
    {
        let v: Vec<String> = Vec::new();
        assert(v@.map_values(|a: String| a@) =~= Seq::<Seq<char>>::empty());
        v
    }

    fn scaffold(&self, code: &str, name: &str) -> (r: Result<Workspace, String>)
        ensures
            match r {
                Ok(w) => w.system == FormalSystem::Rocq && w.root@ == "."@ && w.source_path@ == name@ + ".v"@
                    && w.entry@ == name@,
                Err(_) => false,
            },
    {
        let mut path = owned(name);
        path.append(FormalSystem::Rocq.source_extension());
        proof {
            reveal_strlit(".v");
        }
        Ok(Workspace { system: FormalSystem::Rocq, root: owned("."), source_path: path, entry: owned(name) })
    }

    fn compile(&self, ws: &Workspace) -> (r: Result<CompileReport, String>)
        ensures
            match r {
                Ok(c) => self.mock && c.compiled && c.errors@.len() == 0 && c.per_unit@.len() == 0,
                Err(e) => !self.mock && e@ == "live Rocq compile not wired yet (Phase 2)"@,
            },
    {
        if !self.mock {
            return Err(owned("live Rocq compile not wired yet (Phase 2)"));
        }
        Ok(CompileReport { compiled: true, errors: Vec::new(), per_unit: Vec::new() })
    }

    fn audit_axioms(&self, ws: &Workspace, thm: &str, whitelist: &[String]) -> (r: Result<AxiomReport, String>)
        ensures
            match r {
                Ok(a) => self.mock && a.within_whitelist && a.axioms@.len() == 0,
                Err(e) => !self.mock && e@ == "live Rocq axiom audit not wired yet (Phase 2)"@,
            },
    {
        if !self.mock {
            return Err(owned("live Rocq axiom audit not wired yet (Phase 2)"));
        }
        Ok(AxiomReport { axioms: Vec::new(), within_whitelist: true })
    }

    fn kernel_recheck(&self, ws: &Workspace) -> (r: Result<RecheckReport, String>)
        ensures
            match r {
                Ok(k) => self.mock && k.rechecked,
                Err(e) => !self.mock && e@ == "live Rocq kernel recheck not wired yet (Phase 2)"@,
            },
    {
        if !self.mock {
            return Err(owned("live Rocq kernel recheck not wired yet (Phase 2)"));
        }
        Ok(RecheckReport { rechecked: true })
    }

    fn source_scan(&self, code: &str) -> (r: Result<ScanReport, String>)
        ensures
            match r {
                Ok(s) => s.findings@.map_values(|f: String| f@) == rocq_findings(code@)
                    && s.clean == (rocq_findings(code@).len() == 0),
                Err(_) => false,
            },
    {
        let low = to_lowercase(code);
        let lv = chars_of(low.as_str());
        let patterns = ["admitted", "axiom ", "-type-in-type", "type_in_type", "unset universe checking", "bypass_check"];
        proof {
            assert(lv@.subrange(0, lv@.len() as int) == lv@);
            assert(patterns@.map_values(|p: &str| p@) =~= rocq_patterns());
        }
        let mut findings: Vec<String> = Vec::new();
        let mut i: usize = 0;
        while i < 6
            invariant
                i <= 6,
                lv@ == lowercase(code@),
                lv@.subrange(0, lv@.len() as int) == lv@,
                patterns@.map_values(|p: &str| p@) == rocq_patterns(),
                findings@.map_values(|f: String| f@) == rocq_findings_upto(lv@, i as int),
            decreases 6 - i,
        {
            let pv = chars_of(patterns[i]);
            assert(pv@ == rocq_patterns()[i as int]) by {
                assert(patterns@.map_values(|p: &str| p@)[i as int] == patterns@[i as int]@);
            }
            let ghost f0 = findings@.map_values(|f: String| f@);
            if contains_at(&lv, 0, lv.len(), &pv) {
                findings.push(owned(patterns[i]));
                assert(findings@.map_values(|f: String| f@) =~= f0.push(rocq_patterns()[i as int]));
            }
            i = i + 1;
        }
        Ok(ScanReport { clean: findings.len() == 0, findings })
    }
}

/// Whether a Rocq step finishes the proof: the tactic holds `Qed` or is
/// exactly `exact I` once trimmed.
pub open spec fn rocq_step_finishes(tactic: Seq<char>) -> bool {
    contains_spec(tactic, "Qed"@) || trim(tactic, white_pred()) == "exact I"@
}

impl ProofSession for RocqBackend {
    fn start(&mut self) -> (r: Result<(), SessionError>)
        ensures
            r is Ok,
            *final(self) == *old(self),
    {
        Ok(())
    }

    fn submit_unit(&mut self, code: &str) -> (r: Result<UnitResult, SessionError>)
        ensures
            match r {
                Ok(u) => u.messages@.map_values(|m: String| m@) == rocq_findings(code@) && u.ok == (rocq_findings(code@).len() == 0),
                Err(_) => false,
            },
            *final(self) == *old(self),
    {
        match self.source_scan(code) {
            Ok(scan) => Ok(UnitResult { ok: scan.clean, messages: scan.findings }),
            Err(e) => Err(SessionError::Backend(e)),
        }
    }

    fn step_tactic(&mut self, state: u64, tactic: &str) -> (r: Result<StateResult, SessionError>)
        ensures
            r == Ok::<StateResult, SessionError>(StateResult { state: (state + 1) as u64, finished: rocq_step_finishes(tactic@) }),
            *final(self) == *old(self),
    {
        let v = chars_of(tactic);
        let q = chars_of("Qed");
        let (a, b) = trim_class(&v, 0, v.len(), CharClass::White);
        proof {
            assert(class_pred(CharClass::White) == white_pred());
            assert(v@.subrange(0, v@.len() as int) == v@);
            reveal_strlit("Qed");
        }
        let mut t = String::new();
        crate::text::push_range(&mut t, &v, a, b);
        let finished = contains_at(&v, 0, v.len(), &q) || crate::text::str_eq(t.as_str(), "exact I");
        Ok(StateResult { state: state + 1, finished })
    }

    fn goal_state(&self, state: u64) -> (r: Result<GoalState, SessionError>)
        ensures
            match r {
                Ok(g) => g.goals@.len() == 1 && g.goals@[0]@ == "True"@,
                Err(_) => false,
            },
    {
        let mut goals: Vec<String> = Vec::new();
        goals.push(owned("True"));
        Ok(GoalState { goals })
    }
}

} // verus!
