//! The local pre-screen of external-prover output (trust but verify), and
//! the provenance hash the external backends share.
//!
//! The screen is lexical: the soundness scan's verdict, no `sorry` or
//! `admit`, the statement guard over the round trip, and the expected
//! statement present in the output. Deep hardening is reported in one of
//! three states: not requested, requested but unable to run, or ran; only a
//! flagged hardening verdict counts against the screen. A screen is never a
//! live compile.
use vstd::prelude::*;
use sha2::Digest;
use vstd::string::StringSliceAdditionalSpecFns;
use crate::formal::squeezed;
use crate::statement_guard::{
    drift_spec, guard_lean_round_trip, missing_spec, snapshot_definitions_spec, snapshot_headers_spec, weakened_spec,
};
use crate::text::{
    chars_of, class_pred, concat_words, contains_at, contains_spec, find_class, first_where, lowercase, owned, push_char,
    to_lowercase, CharClass,
};

verus! {

// ===========================================================================
// Provenance hash
// ===========================================================================

/// What `Sha256::digest` returns for `b`: the SHA-256 digest of the bytes.
pub uninterp spec fn sha256_of(b: Seq<u8>) -> Seq<u8>;

/// Calls `sha2::Sha256::digest`; the contract claims that the result is the
/// digest of `b`, named [`sha256_of`], and that it is 32 bytes long.
#[verifier::external_body]
fn sha256(b: &[u8]) -> (r: Vec<u8>)
    ensures
        r@ == sha256_of(b@),
        r@.len() == 32,
{
    sha2::Sha256::digest(b).to_vec()
}

/// The lowercase hexadecimal digit of `d` (below 16).
pub open spec fn hex_digit(d: int) -> char {
    if d < 10 { ((d + 48) as u8) as char } else { ((d + 87) as u8) as char }
}

/// The lowercase hexadecimal form of the first `n` bytes, two digits each.
pub open spec fn hex_upto(b: Seq<u8>, n: int) -> Seq<char>
    decreases n,
{
    if n <= 0 || n > b.len() {
        Seq::empty()
    } else {
        hex_upto(b, n - 1) + seq![hex_digit(b[n - 1] as int / 16), hex_digit(b[n - 1] as int % 16)]
    }
}

/// The lowercase hexadecimal form of `b`.
pub open spec fn hex_spec(b: Seq<u8>) -> Seq<char> {
    hex_upto(b, b.len() as int)
}

/// [`hex_digit`] computed.
fn hex_char(d: u8) -> (r: char)
    requires
        d < 16,
    ensures
        r == hex_digit(d as int),
{
    if d < 10 { (d + 48) as char } else { (d + 87) as char }
}

/// The stable content hash of a text for provenance records: the lowercase
/// hexadecimal SHA-256 digest of its UTF-8 bytes.
pub fn provenance_hash(text: &str) -> (r: String)
    ensures
        r@ == hex_spec(sha256_of(text.spec_bytes())),
{
    let digest = sha256(text.as_bytes());
    let mut out = String::new();
    let mut i: usize = 0;
    while i < digest.len()
        invariant
            i <= digest@.len(),
            out@ == hex_upto(digest@, i as int),
        decreases digest@.len() - i,
    {
        let byte = digest[i];
        push_char(&mut out, hex_char(byte / 16));
        push_char(&mut out, hex_char(byte % 16));
        i = i + 1;
    }
    out
}

// ===========================================================================
// Hardening states
// ===========================================================================

/// The outcome of the deep hardening battery.
#[derive(Debug, Clone, Copy, PartialEq, Eq, Structural)]
pub enum HardeningOutcome {
    Passed,
    Flagged,
    Inconclusive,
    Unavailable,
    BuildFailed,
    Skipped,
}

/// The stable name of an outcome.
pub open spec fn outcome_name(o: HardeningOutcome) -> Seq<char> {
    match o {
        HardeningOutcome::Passed => "passed"@,
        HardeningOutcome::Flagged => "flagged"@,
        HardeningOutcome::Inconclusive => "inconclusive"@,
        HardeningOutcome::Unavailable => "unavailable"@,
        HardeningOutcome::BuildFailed => "build_failed"@,
        HardeningOutcome::Skipped => "skipped"@,
    }
}

/// The stable name of an outcome (see [`outcome_name`]).
pub fn outcome_str(outcome: HardeningOutcome) -> (r: &'static str)
    ensures
        r@ == outcome_name(outcome),
{
    match outcome {
        HardeningOutcome::Passed => "passed",
        HardeningOutcome::Flagged => "flagged",
        HardeningOutcome::Inconclusive => "inconclusive",
        HardeningOutcome::Unavailable => "unavailable",
        HardeningOutcome::BuildFailed => "build_failed",
        HardeningOutcome::Skipped => "skipped",
    }
}

/// The state a hardening layer is in.
#[derive(Debug, Clone, Copy, PartialEq, Eq, Structural)]
pub enum HardeningState {
    /// Not asked for: nothing failed.
    NotRequested,
    /// Asked for but the battery could not run: a failure of that check.
    CouldNotRun,
    /// The battery produced a verdict.
    Ran,
}

impl HardeningState {
    /// The state's name in a report.
    pub fn as_str(self) -> (r: &'static str)
        ensures
            r@ == match self {
                HardeningState::NotRequested => "not_requested"@,
                HardeningState::CouldNotRun => "requested_but_could_not_run"@,
                HardeningState::Ran => "ran"@,
            },
    {
        match self {
            HardeningState::NotRequested => "not_requested",
            HardeningState::CouldNotRun => "requested_but_could_not_run",
            HardeningState::Ran => "ran",
        }
    }
}

/// What a finished hardening run reported.
#[derive(Debug, Clone, Copy, PartialEq, Eq)]
pub struct HardeningRun {
    /// The battery executed at all.
    pub ran: bool,
    /// It passed (only meaningful when it ran).
    pub clean: bool,
    pub outcome: HardeningOutcome,
}

/// The hardening layer resolved: its state, its clean flag and its
/// outcome. Not requested is no verdict; requested without a store, an
/// error, or a run that never executed is a failure; otherwise the run's own
/// verdict.
pub open spec fn hardening_spec(requested: bool, has_store: bool, run: Option<HardeningRun>) -> (HardeningState, Option<bool>, Option<HardeningOutcome>) {
    if !requested {
        (HardeningState::NotRequested, None, None)
    } else if !has_store {
        (HardeningState::CouldNotRun, Some(false), None)
    } else {
        match run {
            None => (HardeningState::CouldNotRun, Some(false), None),
            Some(r) => if r.ran {
                (HardeningState::Ran, Some(r.clean), Some(r.outcome))
            } else {
                (HardeningState::CouldNotRun, Some(false), Some(r.outcome))
            },
        }
    }
}

/// Resolve the hardening layer (see [`hardening_spec`]): whether it was
/// requested, whether a store was at hand to run it, and what the run
/// returned (`None` for an error).
pub fn resolve_hardening(requested: bool, has_store: bool, run: Option<HardeningRun>) -> (r: (HardeningState, Option<bool>, Option<HardeningOutcome>))
    ensures
        r == hardening_spec(requested, has_store, run),
{
    if !requested {
        (HardeningState::NotRequested, None, None)
    } else if !has_store {
        (HardeningState::CouldNotRun, Some(false), None)
    } else {
        match run {
            None => (HardeningState::CouldNotRun, Some(false), None),
            Some(r) => if r.ran {
                (HardeningState::Ran, Some(r.clean), Some(r.outcome))
            } else {
                (HardeningState::CouldNotRun, Some(false), Some(r.outcome))
            },
        }
    }
}

// ===========================================================================
// The lexical screen
// ===========================================================================

/// Whether the statement guard keeps the round trip: no header missing or
/// weakened and no definition changed, removed or ambiguous.
pub open spec fn guard_preserved(before: Seq<char>, after: Seq<char>) -> bool {
    let hb = snapshot_headers_spec(before);
    let ha = snapshot_headers_spec(after);
    let d = drift_spec(snapshot_definitions_spec(before), snapshot_definitions_spec(after));
    missing_spec(hb, ha).len() == 0 && weakened_spec(hb, ha).len() == 0 && d.0.len() == 0 && d.1.len() == 0 && d.2.len() == 0
}

/// Whether the output is free of `sorry` and `admit`, in any case.
pub open spec fn no_sorry_or_admit(after: Seq<char>) -> bool {
    !contains_spec(lowercase(after), "sorry"@) && !contains_spec(lowercase(after), "admit"@)
}

/// Whether the expected statement is present in the output: with all
/// whitespace removed, the statement is not empty and it, or what precedes
/// its first `:`, occurs in the output.
pub open spec fn expected_present(expected: Seq<char>, after: Seq<char>) -> bool {
    let e = squeezed(expected);
    let c = squeezed(after);
    let head = match first_where(expected, class_pred(CharClass::Only(':'))) {
        Some(k) => expected.take(k),
        None => expected,
    };
    e.len() > 0 && (contains_spec(c, e) || contains_spec(c, squeezed(head)))
}

/// The verdict of the lexical screen.
#[derive(Debug, Clone, Copy, PartialEq, Eq)]
pub struct ScreenVerdict {
    /// The lexical checks passed and hardening did not flag the output.
    pub lexically_verified: bool,
    /// No `sorry` or `admit`.
    pub axioms_clean: bool,
    /// The guard kept the round trip and the expected statement is present.
    pub statement_preserved: bool,
    /// The soundness scan's own verdict.
    pub lexical_clean: bool,
    /// The hardening layer's clean flag.
    pub hardening_clean: Option<bool>,
    /// Always false: a screen is not a live compile.
    pub live: bool,
}

/// The screen of a round trip from `before` to `after` against the
/// expected statement, given the soundness scan's verdict and the resolved
/// hardening layer.
pub open spec fn screen_spec(
    before: Seq<char>,
    after: Seq<char>,
    expected: Seq<char>,
    lexical: bool,
    hardening_clean: Option<bool>,
    hardening_outcome: Option<HardeningOutcome>,
) -> ScreenVerdict {
    let axioms_clean = no_sorry_or_admit(after);
    let flagged = hardening_outcome == Some(HardeningOutcome::Flagged);
    ScreenVerdict {
        lexically_verified: lexical && axioms_clean && !flagged,
        axioms_clean,
        statement_preserved: guard_preserved(before, after) && expected_present(expected, after),
        lexical_clean: lexical,
        hardening_clean,
        live: false,
    }
}

/// Screen external-prover output (see [`screen_spec`]).
pub fn screen_round_trip(
    before_src: &str,
    after_src: &str,
    expected_statement: &str,
    lexical: bool,
    hardening_clean: Option<bool>,
    hardening_outcome: Option<HardeningOutcome>,
) -> (r: ScreenVerdict)
    ensures
        r == screen_spec(before_src@, after_src@, expected_statement@, lexical, hardening_clean, hardening_outcome),
{
    let guard = guard_lean_round_trip(before_src, after_src);
    let low = to_lowercase(after_src);
    let lv = chars_of(low.as_str());
    let s1 = chars_of("sorry");
    let s2 = chars_of("admit");
    proof {
        assert(lv@.subrange(0, lv@.len() as int) == lv@);
    }
    let axioms_clean = !contains_at(&lv, 0, lv.len(), &s1) && !contains_at(&lv, 0, lv.len(), &s2);
    let ev = chars_of(expected_statement);
    let av = chars_of(after_src);
    let e = concat_words(&ev, 0, ev.len());
    let c = concat_words(&av, 0, av.len());
    proof {
        assert(ev@.subrange(0, ev@.len() as int) == ev@);
        assert(av@.subrange(0, av@.len() as int) == av@);
        assert(c@.subrange(0, c@.len() as int) == c@);
    }
    let present = if e.len() == 0 {
        false
    } else if contains_at(&c, 0, c.len(), &e) {
        true
    } else {
        let k = find_class(&ev, 0, ev.len(), CharClass::Only(':'));
        let h = concat_words(&ev, 0, k);
        proof {
            if k < ev@.len() {
                assert(ev@.take(k as int) == ev@.subrange(0, k as int));
            } else {
                assert(ev@.subrange(0, k as int) == ev@);
            }
        }
        contains_at(&c, 0, c.len(), &h)
    };
    let flagged = match hardening_outcome {
        Some(HardeningOutcome::Flagged) => true,
        _ => false,
    };
    ScreenVerdict {
        lexically_verified: lexical && axioms_clean && !flagged,
        axioms_clean,
        statement_preserved: guard.preserved && present,
        lexical_clean: lexical,
        hardening_clean,
        live: false,
    }
}

/// The verdict label of the audit row for a screen.
pub fn producer_check_verdict(lexically_verified: bool) -> (r: &'static str)
    ensures
        r@ == if lexically_verified { "lexical_screen_clean"@ } else { "lexical_screen_flagged"@ },
{
    if lexically_verified { "lexical_screen_clean" } else { "lexical_screen_flagged" }
}

/// Whether an audit row is filed for a screen: only against a project and a
/// node that are named (an empty id names nothing).
pub fn records_producer_check(project_id: &str, node_id: &str) -> (r: bool)
    ensures
        r == (project_id@.len() > 0 && node_id@.len() > 0),
{
    !project_id.is_empty() && !node_id.is_empty()
}

} // verus!
