//! Statement preservation: escape-hatch scanning of Lean sources, the split
//! of a source into declaration blocks, and error-span rendering for the
//! repair loop, together with the verdict vocabulary of the preservation
//! checks.
//!
//! Scans run over a sanitized copy of the source in which comments and
//! string literals are blanked out character for character, so positions and
//! line numbers carry over to the raw text.
use vstd::prelude::*;
pub use crate::statement_context::{check_context_preserved, check_context_preserved_for, ContextIntegrityReport};
pub use crate::statement_signature::{check_entry_signature, check_statement_preserved, PreservationReport};
pub use crate::statement_splice::{splice_canonical_statement, SpliceOutcome};
use crate::formal::ScanReport;
use crate::declaration_lookup::{chars_lt, lemma_lt_irreflexive, lemma_lt_total, lemma_lt_transitive, seq_lt};
use crate::error_feedback::{decimal_len, pad_left, push_padded};
use crate::text::{
    char_is_alphanumeric, chars_of, class_pred, decimal, is_alnum, join, lines_spec, line_windows,
    lemma_line_window, line_windows_of, owned, push_char, push_decimal, push_range, string_of,
    string_of_range, str_eq, trim, trim_class, white_pred, window_eq, CharClass, first_where,
    ltrim, rtrim, skip_class, find_class, rskip_class, lemma_first_where, lemma_ltrim_suffix,
    word_list, words_view, ident_char, is_white, char_is_whitespace, is_word_char, class_has,
};

verus! {

// ===========================================================================
// Verdict vocabulary
// ===========================================================================

/// A parsed declaration signature: keyword, name, binders and conclusion.
#[derive(Debug, Clone, PartialEq, Eq)]
pub struct TheoremSig {
    /// Declaration keyword (`theorem` / `lemma` / `example` / `def`).
    pub kind: String,
    /// Declared name (`example` yields `"<example>"`).
    pub name: String,
    /// Binder region, whitespace-normalized.
    pub binders: String,
    /// Conclusion, whitespace-normalized.
    pub conclusion: String,
}

/// Verdict of comparing a canonical statement with a submitted one. Only
/// `Preserved` and `PreservedAlpha` count as preserved.
#[derive(Debug, Clone, Copy, PartialEq, Eq, Structural)]
pub enum PreservationVerdict {
    /// Name, binders and conclusion match up to whitespace.
    Preserved,
    /// Match up to whitespace and a renaming of bound variables.
    PreservedAlpha,
    /// The canonical signature exists under a different name.
    Renamed,
    /// The binder region differs.
    BindersChanged,
    /// The conclusion differs.
    ConclusionChanged,
    /// The conclusion was replaced by a trivial proposition.
    TriviallyRestated,
    /// The canonical statement could not be parsed.
    CanonicalUnparsable,
    /// No submitted declaration matches the canonical name or signature.
    SubmittedMissing,
}

/// The stable tag of a preservation verdict.
pub open spec fn preservation_tag(v: PreservationVerdict) -> Seq<char> {
    match v {
        PreservationVerdict::Preserved => "preserved"@,
        PreservationVerdict::PreservedAlpha => "preserved_alpha"@,
        PreservationVerdict::Renamed => "renamed"@,
        PreservationVerdict::BindersChanged => "binders_changed"@,
        PreservationVerdict::ConclusionChanged => "conclusion_changed"@,
        PreservationVerdict::TriviallyRestated => "trivially_restated"@,
        PreservationVerdict::CanonicalUnparsable => "canonical_unparsable"@,
        PreservationVerdict::SubmittedMissing => "submitted_missing"@,
    }
}

impl PreservationVerdict {
    /// Whether this verdict counts as preserved.
    pub fn is_preserved(self) -> (r: bool)
        ensures
            r == (self == PreservationVerdict::Preserved || self == PreservationVerdict::PreservedAlpha),
    {
        match self {
            PreservationVerdict::Preserved | PreservationVerdict::PreservedAlpha => true,
            _ => false,
        }
    }

    /// Stable tag for findings and reports.
    pub fn tag(self) -> (r: &'static str)
        ensures
            r@ == preservation_tag(self),
    {
        match self {
            PreservationVerdict::Preserved => "preserved",
            PreservationVerdict::PreservedAlpha => "preserved_alpha",
            PreservationVerdict::Renamed => "renamed",
            PreservationVerdict::BindersChanged => "binders_changed",
            PreservationVerdict::ConclusionChanged => "conclusion_changed",
            PreservationVerdict::TriviallyRestated => "trivially_restated",
            PreservationVerdict::CanonicalUnparsable => "canonical_unparsable",
            PreservationVerdict::SubmittedMissing => "submitted_missing",
        }
    }
}

/// How a non-target declaration differs between the supplied context and the
/// submission.
#[derive(Debug, Clone, Copy, PartialEq, Eq, Structural)]
pub enum ContextChangeKind {
    /// Present in both, text differs.
    Modified,
    /// Present in the context, absent from the submission.
    Removed,
    /// Present in the submission only.
    Added,
}

/// The stable tag of a context change.
pub open spec fn context_change_tag(k: ContextChangeKind) -> Seq<char> {
    match k {
        ContextChangeKind::Modified => "modified"@,
        ContextChangeKind::Removed => "removed"@,
        ContextChangeKind::Added => "added"@,
    }
}

impl ContextChangeKind {
    /// Stable tag for findings and reports.
    pub fn tag(self) -> (r: &'static str)
        ensures
            r@ == context_change_tag(self),
    {
        match self {
            ContextChangeKind::Modified => "modified",
            ContextChangeKind::Removed => "removed",
            ContextChangeKind::Added => "added",
        }
    }
}

/// One whole-submission integrity difference.
#[derive(Debug, Clone, PartialEq, Eq)]
pub struct ContextChange {
    /// What happened to this piece of given material.
    pub kind: ContextChangeKind,
    /// Declaration name, or `"<preamble>"` for the region before the first
    /// declaration.
    pub name: String,
    /// The declaration as it appeared in the context (`None` when added).
    pub context_text: Option<String>,
    /// The declaration as it appears in the submission (`None` when removed).
    pub submitted_text: Option<String>,
}

/// Outcome of splicing the canonical statement onto a proof body.
#[derive(Debug, Clone, Copy, PartialEq, Eq, Structural)]
pub enum SpliceVerdict {
    /// Canonical header plus the target's own proof body.
    Spliced,
    /// The canonical statement did not parse.
    CanonicalUnparsable,
    /// No declaration carries the canonical name.
    TargetNotFound,
    /// The target has no top-level `:=` or an empty body.
    NoProofBody,
}

/// The stable tag of a splice verdict.
pub open spec fn splice_tag(v: SpliceVerdict) -> Seq<char> {
    match v {
        SpliceVerdict::Spliced => "spliced"@,
        SpliceVerdict::CanonicalUnparsable => "canonical_unparsable"@,
        SpliceVerdict::TargetNotFound => "target_not_found"@,
        SpliceVerdict::NoProofBody => "no_proof_body"@,
    }
}

impl SpliceVerdict {
    /// Stable tag for findings and reports.
    pub fn tag(self) -> (r: &'static str)
        ensures
            r@ == splice_tag(self),
    {
        match self {
            SpliceVerdict::Spliced => "spliced",
            SpliceVerdict::CanonicalUnparsable => "canonical_unparsable",
            SpliceVerdict::TargetNotFound => "target_not_found",
            SpliceVerdict::NoProofBody => "no_proof_body",
        }
    }
}

/// A piece of model output a splice did not carry into the compiled file.
#[derive(Debug, Clone, PartialEq, Eq)]
pub struct DiscardedDecl {
    /// Declaration name, or `"<trailing>"`.
    pub name: String,
    /// `"before"` or `"after"` the target.
    pub position: &'static str,
    /// The raw text.
    pub source: String,
}

// ===========================================================================
// Sanitizing
// ===========================================================================

/// Exec [`is_word_char`].
pub(crate) fn is_word(c: char) -> (r: bool)
    ensures
        r == is_word_char(c),
{
    char_is_alphanumeric(c) || c == '_' || c == '\''
}

/// The sanitized text of `s[i..]` in the given scanner state: inside a `--`
/// comment, block-comment depth, inside a string literal. Comment and string
/// characters become spaces (a string's quotes too), newlines are kept, and
/// everything else is copied.
pub open spec fn sanitize_from(s: Seq<char>, i: int, in_line: bool, depth: nat, in_str: bool) -> Seq<char>
    decreases s.len() - i,
{
    if i < 0 || i >= s.len() {
        Seq::empty()
    } else {
        let c = s[i];
        let nx: Option<char> = if i + 1 < s.len() { Some(s[i + 1]) } else { None };
        let blank = if c == '\n' { '\n' } else { ' ' };
        if in_line {
            seq![blank] + sanitize_from(s, i + 1, c != '\n', depth, in_str)
        } else if depth > 0 {
            if c == '/' && nx == Some('-') {
                seq![' ', ' '] + sanitize_from(s, i + 2, false, depth + 1, in_str)
            } else if c == '-' && nx == Some('/') {
                seq![' ', ' '] + sanitize_from(s, i + 2, false, (depth - 1) as nat, in_str)
            } else {
                seq![blank] + sanitize_from(s, i + 1, false, depth, in_str)
            }
        } else if in_str {
            if c == '\\' && nx is Some {
                seq![' ', ' '] + sanitize_from(s, i + 2, false, 0, true)
            } else if c == '"' {
                seq![' '] + sanitize_from(s, i + 1, false, 0, false)
            } else {
                seq![blank] + sanitize_from(s, i + 1, false, 0, true)
            }
        } else if c == '-' && nx == Some('-') {
            seq![' ', ' '] + sanitize_from(s, i + 2, true, 0, false)
        } else if c == '/' && nx == Some('-') {
            seq![' ', ' '] + sanitize_from(s, i + 2, false, 1, false)
        } else if c == '"' {
            seq![' '] + sanitize_from(s, i + 1, false, 0, true)
        } else {
            seq![c] + sanitize_from(s, i + 1, false, 0, false)
        }
    }
}

/// `s` with its Lean comments and string literals blanked out.
pub open spec fn sanitize_spec(s: Seq<char>) -> Seq<char> {
    sanitize_from(s, 0, false, 0, false)
}

/// Blank out the comments and string literals of `v`.
pub(crate) fn sanitize_chars(v: &Vec<char>) -> (r: Vec<char>)
    ensures
        r@ == sanitize_spec(v@),
{
    let n = v.len();
    let mut out: Vec<char> = Vec::new();
    let mut i: usize = 0;
    let mut in_line = false;
    let mut depth: usize = 0;
    let mut in_str = false;
    assert(out@ + sanitize_spec(v@) == sanitize_spec(v@));
    while i < n
        invariant
            n == v@.len(),
            i <= n,
            depth <= i,
            out@ + sanitize_from(v@, i as int, in_line, depth as nat, in_str) == sanitize_spec(v@),
        decreases n - i,
    {
        let c = v[i];
        let nx: Option<char> = if i + 1 < n { Some(v[i + 1]) } else { None };
        let blank = if c == '\n' { '\n' } else { ' ' };
        let ghost before = out@;
        let ghost i0 = i;
        let ghost il0 = in_line;
        let ghost d0 = depth;
        let ghost s0 = in_str;
        if in_line {
            out.push(blank);
            in_line = c != '\n';
            i = i + 1;
        } else if depth > 0 {
            if c == '/' && nx == Some('-') {
                depth = depth + 1;
                out.push(' ');
                out.push(' ');
                i = i + 2;
            } else if c == '-' && nx == Some('/') {
                depth = depth - 1;
                out.push(' ');
                out.push(' ');
                i = i + 2;
            } else {
                out.push(blank);
                i = i + 1;
            }
        } else if in_str {
            if c == '\\' && nx.is_some() {
                out.push(' ');
                out.push(' ');
                i = i + 2;
            } else if c == '"' {
                in_str = false;
                out.push(' ');
                i = i + 1;
            } else {
                out.push(blank);
                i = i + 1;
            }
        } else if c == '-' && nx == Some('-') {
            in_line = true;
            out.push(' ');
            out.push(' ');
            i = i + 2;
        } else if c == '/' && nx == Some('-') {
            depth = 1;
            out.push(' ');
            out.push(' ');
            i = i + 2;
        } else if c == '"' {
            in_str = true;
            out.push(' ');
            i = i + 1;
        } else {
            out.push(c);
            i = i + 1;
        }
        proof {
            let delta = out@.subrange(before.len() as int, out@.len() as int);
            assert(out@ == before + delta);
            assert(sanitize_from(v@, i0 as int, il0, d0 as nat, s0) == delta + sanitize_from(
                v@,
                i as int,
                in_line,
                depth as nat,
                in_str,
            ));
            assert(before + (delta + sanitize_from(v@, i as int, in_line, depth as nat, in_str)) == out@
                + sanitize_from(v@, i as int, in_line, depth as nat, in_str));
        }
    }
    assert(out@ + Seq::<char>::empty() == out@);
    out
}

// ===========================================================================
// Whole-token search
// ===========================================================================

/// Whether `needle` occurs as a whole token at `i` of `s`: the character
/// before is not a word character, and, when the needle ends in a word
/// character, neither is the one after.
pub open spec fn token_at(s: Seq<char>, needle: Seq<char>, i: int) -> bool {
    &&& 0 <= i
    &&& i + needle.len() <= s.len()
    &&& s.subrange(i, i + needle.len()) == needle
    &&& (i == 0 || !is_word_char(s[i - 1]))
    &&& (needle.len() == 0 || !is_word_char(needle.last()) || i + needle.len() == s.len()
        || !is_word_char(s[i + needle.len()]))
}

/// The whole-token occurrences of `needle` in `s` from `i` on, scanning left
/// to right and resuming after each match.
pub open spec fn tokens_from(s: Seq<char>, needle: Seq<char>, i: int) -> Seq<int>
    decreases s.len() - i,
{
    if needle.len() == 0 || i < 0 || i + needle.len() > s.len() {
        Seq::empty()
    } else if token_at(s, needle, i) {
        seq![i] + tokens_from(s, needle, i + needle.len())
    } else {
        tokens_from(s, needle, i + 1)
    }
}

/// The positions of whole-token occurrences of `needle` in `chars`.
fn token_positions(chars: &Vec<char>, needle: &Vec<char>) -> (r: Vec<usize>)
    ensures
        r@.map_values(|p: usize| p as int) == tokens_from(chars@, needle@, 0),
        forall|k: int| 0 <= k < r@.len() ==> #[trigger] r@[k] + needle@.len() <= chars@.len(),
{
    let n = chars.len();
    let m = needle.len();
    let mut out: Vec<usize> = Vec::new();
    if m == 0 || n < m {
        assert(out@.map_values(|p: usize| p as int) =~= Seq::<int>::empty());
        return out;
    }
    let last_is_word = is_word(needle[m - 1]);
    let mut i: usize = 0;
    assert(out@.map_values(|p: usize| p as int) + tokens_from(chars@, needle@, 0) =~= tokens_from(chars@, needle@, 0));
    while i <= n - m
        invariant
            i <= n,
            n == chars@.len(),
            m == needle@.len(),
            0 < m <= n,
            last_is_word == is_word_char(needle@[m - 1]),
            out@.map_values(|p: usize| p as int) + tokens_from(chars@, needle@, i as int) == tokens_from(chars@, needle@, 0),
            forall|k: int| 0 <= k < out@.len() ==> #[trigger] out@[k] + m <= n,
        decreases n + 1 - i,
    {
        let ghost o0 = out@.map_values(|p: usize| p as int);
        if window_eq(chars, i, needle) {
            let before_ok = i == 0 || !is_word(chars[i - 1]);
            let after_ok = !last_is_word || i + m == n || !is_word(chars[i + m]);
            if before_ok && after_ok {
                assert(token_at(chars@, needle@, i as int));
                out.push(i);
                assert(out@.map_values(|p: usize| p as int) =~= o0.push(i as int));
                assert(o0.push(i as int) + tokens_from(chars@, needle@, (i + m) as int) =~= o0 + tokens_from(chars@, needle@, i as int));
                i = i + m;
                continue;
            }
        }
        assert(!token_at(chars@, needle@, i as int));
        i = i + 1;
    }
    assert(out@.map_values(|p: usize| p as int) + Seq::<int>::empty() =~= out@.map_values(|p: usize| p as int));
    out
}

/// How many newlines `s` holds.
pub open spec fn count_newlines(s: Seq<char>) -> nat
    decreases s.len(),
{
    if s.len() == 0 {
        0
    } else {
        count_newlines(s.drop_last()) + if s.last() == '\n' { 1nat } else { 0nat }
    }
}

/// The 1-based line of position `idx` in `s`.
pub open spec fn line_of_spec(s: Seq<char>, idx: int) -> nat {
    1 + count_newlines(s.take(if idx < s.len() { idx } else { s.len() as int }))
}

/// The 1-based line of position `idx < chars.len()`.
fn line_of(chars: &Vec<char>, idx: usize) -> (r: usize)
    requires
        idx < chars@.len(),
    ensures
        r == line_of_spec(chars@, idx as int),
{
    let n = chars.len();
    let mut c: usize = 0;
    let mut j: usize = 0;
    while j < idx
        invariant
            j <= idx < chars@.len() == n,
            c <= j,
            c == count_newlines(chars@.take(j as int)),
        decreases idx - j,
    {
        assert(chars@.take(j + 1).drop_last() == chars@.take(j as int));
        if chars[j] == '\n' {
            c = c + 1;
        }
        j = j + 1;
    }
    c + 1
}


// ===========================================================================
// Escape hatches
// ===========================================================================

/// The escape-hatch tokens flagged, in fixed order; each is also its rule id.
pub open spec fn hatch_rules() -> Seq<Seq<char>> {
    seq!["sorry"@, "admit"@, "native_decide"@, "apply?"@, "exact?"@, "rfl?"@]
}

/// Why each token of [`hatch_rules`] is flagged.
pub open spec fn hatch_reasons() -> Seq<Seq<char>> {
    seq![
        "open goal admitted with `sorry` (no proof)"@,
        "open goal admitted with `admit` (no proof)"@,
        "goal closed by the compiled `native_decide` evaluator — a trust hole the kernel does not re-check (config-level escape hatch)"@,
        "interactive suggestion tactic `apply?` — non-reproducible proof (editor/UI code path, not the kernel; DeepSeek-Prover-V2 erratum)"@,
        "interactive suggestion tactic `exact?` — non-reproducible proof (editor/UI code path, not the kernel; DeepSeek-Prover-V2 erratum)"@,
        "interactive suggestion tactic `rfl?` — non-reproducible proof (editor/UI code path, not the kernel; DeepSeek-Prover-V2 erratum)"@,
    ]
}

/// Token (and rule id) `k` of the hatch table.
fn hatch_rule(k: usize) -> (r: &'static str)
    requires
        k < 6,
    ensures
        r@ == hatch_rules()[k as int],
{
    if k == 0 {
        "sorry"
    } else if k == 1 {
        "admit"
    } else if k == 2 {
        "native_decide"
    } else if k == 3 {
        "apply?"
    } else if k == 4 {
        "exact?"
    } else {
        "rfl?"
    }
}

/// Reason `k` of the hatch table.
fn hatch_reason(k: usize) -> (r: &'static str)
    requires
        k < 6,
    ensures
        r@ == hatch_reasons()[k as int],
{
    if k == 0 {
        "open goal admitted with `sorry` (no proof)"
    } else if k == 1 {
        "open goal admitted with `admit` (no proof)"
    } else if k == 2 {
        "goal closed by the compiled `native_decide` evaluator — a trust hole the kernel does not re-check (config-level escape hatch)"
    } else if k == 3 {
        "interactive suggestion tactic `apply?` — non-reproducible proof (editor/UI code path, not the kernel; DeepSeek-Prover-V2 erratum)"
    } else if k == 4 {
        "interactive suggestion tactic `exact?` — non-reproducible proof (editor/UI code path, not the kernel; DeepSeek-Prover-V2 erratum)"
    } else {
        "interactive suggestion tactic `rfl?` — non-reproducible proof (editor/UI code path, not the kernel; DeepSeek-Prover-V2 erratum)"
    }
}

/// One escape-hatch finding: which construct, its 1-based line, and why.
#[derive(Debug, Clone, PartialEq, Eq)]
pub struct EscapeHatch {
    /// Rule id (`sorry` / `admit` / `native_decide` / `apply?` / …).
    pub rule: &'static str,
    /// 1-based source line.
    pub line: usize,
    /// Why it is flagged.
    pub detail: String,
}

/// The model of an [`EscapeHatch`].
pub ghost struct SHatch {
    pub rule: Seq<char>,
    pub line: nat,
    pub detail: Seq<char>,
}

impl View for EscapeHatch {
    type V = SHatch;

    open spec fn view(&self) -> SHatch {
        SHatch { rule: self.rule@, line: self.line as nat, detail: self.detail@ }
    }
}

/// The models of a sequence of findings.
pub open spec fn hatches_view(hs: Seq<EscapeHatch>) -> Seq<SHatch> {
    hs.map_values(|h: EscapeHatch| h@)
}

/// The findings of hatch `k` in `chars`, in position order.
pub open spec fn hatches_for(chars: Seq<char>, k: int) -> Seq<SHatch> {
    tokens_from(chars, hatch_rules()[k], 0).map_values(
        |p: int| SHatch { rule: hatch_rules()[k], line: line_of_spec(chars, p), detail: hatch_reasons()[k] },
    )
}

/// The findings of the first `m` hatches, hatch by hatch.
pub open spec fn all_hatches(chars: Seq<char>, m: int) -> Seq<SHatch>
    decreases m,
{
    if m <= 0 { Seq::empty() } else { all_hatches(chars, m - 1) + hatches_for(chars, m - 1) }
}

/// Finding order: by line, then by rule.
pub open spec fn hatch_lt(a: SHatch, b: SHatch) -> bool {
    a.line < b.line || (a.line == b.line && seq_lt(a.rule, b.rule))
}

/// `x` inserted into the sorted `s` after every finding not ordered after it.
pub open spec fn insert_hatch_spec(s: Seq<SHatch>, x: SHatch) -> Seq<SHatch>
    decreases s.len(),
{
    if s.len() == 0 {
        seq![x]
    } else if hatch_lt(x, s.last()) {
        insert_hatch_spec(s.drop_last(), x).push(s.last())
    } else {
        s.push(x)
    }
}

/// `s` stably sorted by line, then rule.
pub open spec fn sort_hatches(s: Seq<SHatch>) -> Seq<SHatch>
    decreases s.len(),
{
    if s.len() == 0 { s } else { insert_hatch_spec(sort_hatches(s.drop_last()), s.last()) }
}

/// Every escape hatch in `chars`, ordered by line and then rule.
pub open spec fn scan_positions_spec(chars: Seq<char>) -> Seq<SHatch> {
    sort_hatches(all_hatches(chars, 6))
}

/// The escape hatches in the code of a Lean source (comments and strings
/// ignored).
pub open spec fn scan_spec(code: Seq<char>) -> Seq<SHatch> {
    scan_positions_spec(sanitize_spec(code))
}

proof fn lemma_insert_at(s: Seq<SHatch>, x: SHatch, j: int)
    requires
        0 <= j <= s.len(),
        forall|k: int| j <= k < s.len() ==> hatch_lt(x, #[trigger] s[k]),
        j == 0 || !hatch_lt(x, s[j - 1]),
    ensures
        insert_hatch_spec(s, x) == s.take(j) + seq![x] + s.skip(j),
    decreases s.len(),
{
    if s.len() == 0 {
        assert(s.take(j) + seq![x] + s.skip(j) =~= seq![x]);
    } else if j == s.len() {
        assert(s.take(j) + seq![x] + s.skip(j) =~= s.push(x));
    } else {
        assert(hatch_lt(x, s[s.len() - 1]));
        let t = s.drop_last();
        assert forall|k: int| j <= k < t.len() implies hatch_lt(x, #[trigger] t[k]) by {
            assert(t[k] == s[k]);
        }
        if j > 0 {
            assert(t[j - 1] == s[j - 1]);
        }
        lemma_insert_at(t, x, j);
        assert((t.take(j) + seq![x] + t.skip(j)).push(s.last()) =~= s.take(j) + seq![x] + s.skip(j));
    }
}

/// Whether finding `a` orders before `b`.
fn hatch_less(a: &EscapeHatch, b: &EscapeHatch) -> (r: bool)
    ensures
        r == hatch_lt(a@, b@),
{
    if a.line < b.line {
        return true;
    }
    if a.line != b.line {
        return false;
    }
    let ar = chars_of(a.rule);
    let br = chars_of(b.rule);
    chars_lt(&ar, &br)
}

/// Insert `x` into the sorted findings `v` (see [`insert_hatch_spec`]).
fn insert_hatch(v: &mut Vec<EscapeHatch>, x: EscapeHatch)
    ensures
        hatches_view(final(v)@) == insert_hatch_spec(hatches_view(old(v)@), x@),
{
    let ghost s = hatches_view(v@);
    let mut j: usize = v.len();
    while j > 0 && hatch_less(&x, &v[j - 1])
        invariant
            j <= v@.len(),
            s == hatches_view(v@),
            forall|k: int| j <= k < s.len() ==> hatch_lt(x@, #[trigger] s[k]),
        decreases j,
    {
        assert(s[j - 1] == v@[j - 1]@);
        j = j - 1;
    }
    proof {
        if j > 0 {
            assert(s[j - 1] == v@[j - 1]@);
        }
        lemma_insert_at(s, x@, j as int);
    }
    let ghost xv = x@;
    v.insert(j, x);
    assert(hatches_view(v@) =~= s.take(j as int) + seq![xv] + s.skip(j as int));
}

/// Every escape hatch in the (already prepared) characters, ordered by line
/// and then rule.
fn scan_positions(chars: &Vec<char>) -> (r: Vec<EscapeHatch>)
    ensures
        hatches_view(r@) == scan_positions_spec(chars@),
{
    let mut out: Vec<EscapeHatch> = Vec::new();
    let mut k: usize = 0;
    assert(hatches_view(out@) =~= sort_hatches(all_hatches(chars@, 0)));
    while k < 6
        invariant
            k <= 6,
            hatches_view(out@) == sort_hatches(all_hatches(chars@, k as int)),
        decreases 6 - k,
    {
        let lit = hatch_rule(k);
        let reason = hatch_reason(k);
        let lv = chars_of(lit);
        let ps = token_positions(chars, &lv);
        let ghost base = all_hatches(chars@, k as int);
        let ghost hk = hatches_for(chars@, k as int);
        proof {
            assert(lv@ == hatch_rules()[k as int]);
            assert(hk.len() == ps@.len());
        }
        let mut q: usize = 0;
        while q < ps.len()
            invariant
                k < 6,
                q <= ps@.len(),
                lv@ == hatch_rules()[k as int],
                lit@ == hatch_rules()[k as int],
                reason@ == hatch_reasons()[k as int],
                ps@.map_values(|p: usize| p as int) == tokens_from(chars@, hatch_rules()[k as int], 0),
                forall|i: int| 0 <= i < ps@.len() ==> #[trigger] ps@[i] + lv@.len() <= chars@.len(),
                hk == hatches_for(chars@, k as int),
                hatches_view(out@) == sort_hatches(base + hk.take(q as int)),
            decreases ps@.len() - q,
        {
            let pos = ps[q];
            proof {
                lemma_rules_nonempty(k as int);
                assert(ps@.map_values(|p: usize| p as int)[q as int] == pos as int);
            }
            let h = EscapeHatch { rule: lit, line: line_of(chars, pos), detail: owned(reason) };
            proof {
                assert(h@ == hk[q as int]);
                assert((base + hk.take(q + 1)).drop_last() == base + hk.take(q as int));
                assert((base + hk.take(q + 1)).last() == hk[q as int]);
            }
            insert_hatch(&mut out, h);
            q = q + 1;
        }
        proof {
            assert(hk.take(ps@.len() as int) == hk);
        }
        k = k + 1;
    }
    out
}

proof fn lemma_rules_nonempty(k: int)
    requires
        0 <= k < 6,
    ensures
        hatch_rules()[k].len() > 0,
{
    reveal_strlit("sorry");
    reveal_strlit("admit");
    reveal_strlit("native_decide");
    reveal_strlit("apply?");
    reveal_strlit("exact?");
    reveal_strlit("rfl?");
}

/// Flag the proof-search escape hatches (`sorry`, `admit`, `native_decide`,
/// `apply?`, `exact?`, `rfl?`) in the code of a Lean source, ignoring comments
/// and string literals, ordered by line and then rule.
pub fn scan_escape_hatches(code: &str) -> (r: Vec<EscapeHatch>)
    ensures
        hatches_view(r@) == scan_spec(code@),
{
    let v = chars_of(code);
    let s = sanitize_chars(&v);
    scan_positions(&s)
}

/// Whether `code` is free of escape hatches.
pub fn escape_hatches_clean(code: &str) -> (r: bool)
    ensures
        r == (scan_spec(code@).len() == 0),
{
    scan_escape_hatches(code).len() == 0
}

/// The finding line of one escape hatch: `CRITICAL: <rule> (line <n>): <detail>`.
pub open spec fn hatch_finding(h: SHatch) -> Seq<char> {
    "CRITICAL: "@ + h.rule + " (line "@ + decimal(h.line) + "): "@ + h.detail
}

/// The escape-hatch scan as a scan result: clean iff nothing was found, one
/// `CRITICAL:` line per finding.
pub fn escape_hatch_scan_report(code: &str) -> (r: ScanReport)
    ensures
        r.clean == (scan_spec(code@).len() == 0),
        r.findings@.map_values(|f: String| f@) == scan_spec(code@).map_values(|h: SHatch| hatch_finding(h)),
{
    let hatches = scan_escape_hatches(code);
    let ghost hv = hatches_view(hatches@);
    let mut findings: Vec<String> = Vec::new();
    let mut i: usize = 0;
    while i < hatches.len()
        invariant
            i <= hatches@.len(),
            hv == hatches_view(hatches@),
            findings@.map_values(|f: String| f@) == hv.take(i as int).map_values(|h: SHatch| hatch_finding(h)),
        decreases hatches@.len() - i,
    {
        let h = &hatches[i];
        let mut m = owned("CRITICAL: ");
        m.append(h.rule);
        m.append(" (line ");
        push_decimal(&mut m, h.line);
        m.append("): ");
        m.append(h.detail.as_str());
        let ghost f0 = findings@.map_values(|f: String| f@);
        findings.push(m);
        assert(hv[i as int] == h@);
        assert(findings@.map_values(|f: String| f@) =~= f0.push(hatch_finding(hv[i as int])));
        assert(hv.take(i + 1).map_values(|x: SHatch| hatch_finding(x)) =~= hv.take(i as int).map_values(
            |x: SHatch| hatch_finding(x),
        ).push(hatch_finding(hv[i as int])));
        i = i + 1;
    }
    assert(hv.take(hatches@.len() as int) == hv);
    ScanReport { clean: hatches.len() == 0, findings }
}

/// Whether an escape hatch inside a comment or string literal counts.
#[derive(Debug, Clone, Copy, PartialEq, Eq, Structural)]
pub enum CommentPolicy {
    /// Match over comment/string-stripped source: a commented `sorry` does
    /// not count.
    CodeOnly,
    /// Match over raw source: a commented `sorry` counts.
    CodeAndComments,
}

/// The comment-coverage policy of every gate-facing scan here: a comment is
/// never executed by the kernel, so it cannot be a soundness violation.
pub const ESCAPE_HATCH_COMMENT_POLICY: CommentPolicy = CommentPolicy::CodeOnly;

/// Whether an escape hatch appearing only in a comment or string literal is a
/// violation under [`ESCAPE_HATCH_COMMENT_POLICY`].
pub fn commented_escape_hatch_is_a_violation() -> (r: bool)
    ensures
        r == (ESCAPE_HATCH_COMMENT_POLICY == CommentPolicy::CodeAndComments),
        !r,
{
    match ESCAPE_HATCH_COMMENT_POLICY {
        CommentPolicy::CodeAndComments => true,
        CommentPolicy::CodeOnly => false,
    }
}

/// The escape hatches of a policy: over sanitized code, or over the raw
/// source.
pub open spec fn scan_policy_spec(code: Seq<char>, policy: CommentPolicy) -> Seq<SHatch> {
    match policy {
        CommentPolicy::CodeOnly => scan_spec(code),
        CommentPolicy::CodeAndComments => scan_positions_spec(code),
    }
}

/// [`scan_escape_hatches`] under an explicit policy.
pub fn scan_escape_hatches_with_policy(code: &str, policy: CommentPolicy) -> (r: Vec<EscapeHatch>)
    ensures
        hatches_view(r@) == scan_policy_spec(code@, policy),
{
    match policy {
        CommentPolicy::CodeOnly => scan_escape_hatches(code),
        CommentPolicy::CodeAndComments => {
            let v = chars_of(code);
            scan_positions(&v)
        },
    }
}

/// The first of `active` with the line and rule of `h`.
pub open spec fn first_same(active: Seq<SHatch>, h: SHatch) -> Option<int>
    decreases active.len(),
{
    if active.len() == 0 {
        None
    } else if active[0].line == h.line && active[0].rule == h.rule {
        Some(0)
    } else {
        match first_same(active.drop_first(), h) {
            Some(j) => Some(j + 1),
            None => None,
        }
    }
}

/// The findings of `raw` left after each is matched against (and consumes)
/// the first remaining `active` finding of the same line and rule.
pub open spec fn unmatched(raw: Seq<SHatch>, active: Seq<SHatch>) -> Seq<SHatch>
    decreases raw.len(),
{
    if raw.len() == 0 {
        Seq::empty()
    } else {
        match first_same(active, raw[0]) {
            Some(j) => unmatched(raw.drop_first(), active.remove(j)),
            None => seq![raw[0]] + unmatched(raw.drop_first(), active),
        }
    }
}

/// The escape hatches that appear only inside comments or string literals.
pub open spec fn commented_spec(code: Seq<char>) -> Seq<SHatch> {
    unmatched(scan_positions_spec(code), scan_spec(code))
}

proof fn lemma_first_same(active: Seq<SHatch>, h: SHatch)
    ensures
        match first_same(active, h) {
            Some(j) => 0 <= j < active.len() && active[j].line == h.line && active[j].rule == h.rule,
            None => true,
        },
    decreases active.len(),
{
    if active.len() > 0 {
        lemma_first_same(active.drop_first(), h);
    }
}

/// The index of the first of `active` with the line and rule of `h`.
fn find_same(active: &Vec<EscapeHatch>, h: &EscapeHatch) -> (r: Option<usize>)
    ensures
        match r {
            Some(j) => j < active@.len() && first_same(hatches_view(active@), h@) == Some(j as int),
            None => first_same(hatches_view(active@), h@) is None,
        },
{
    let mut j: usize = 0;
    assert(hatches_view(active@).skip(0) == hatches_view(active@));
    while j < active.len()
        invariant
            j <= active@.len(),
            first_same(hatches_view(active@), h@) == match first_same(hatches_view(active@).skip(j as int), h@) {
                Some(k) => Some(k + j),
                None => None,
            },
        decreases active@.len() - j,
    {
        let ghost rest = hatches_view(active@).skip(j as int);
        assert(rest[0] == active@[j as int]@);
        assert(rest.drop_first() == hatches_view(active@).skip(j + 1));
        if active[j].line == h.line && str_eq(active[j].rule, h.rule) {
            return Some(j);
        }
        j = j + 1;
    }
    None
}

/// A copy of a finding.
fn clone_hatch(h: &EscapeHatch) -> (r: EscapeHatch)
    ensures
        r@ == h@,
{
    EscapeHatch { rule: h.rule, line: h.line, detail: h.detail.clone() }
}

/// The escape hatches that appear only inside comments or string literals:
/// the raw-source findings not matched by a code finding of the same line and
/// rule.
pub fn commented_escape_hatches(code: &str) -> (r: Vec<EscapeHatch>)
    ensures
        hatches_view(r@) == commented_spec(code@),
{
    let mut active = scan_escape_hatches(code);
    let raw = scan_escape_hatches_with_policy(code, CommentPolicy::CodeAndComments);
    let ghost rv = hatches_view(raw@);
    let mut out: Vec<EscapeHatch> = Vec::new();
    let mut i: usize = 0;
    assert(rv.skip(0) == rv);
    while i < raw.len()
        invariant
            i <= raw@.len(),
            rv == hatches_view(raw@),
            hatches_view(out@) + unmatched(rv.skip(i as int), hatches_view(active@)) == commented_spec(code@),
        decreases raw@.len() - i,
    {
        let ghost tail = rv.skip(i as int);
        assert(tail[0] == raw@[i as int]@);
        assert(tail.drop_first() == rv.skip(i + 1));
        match find_same(&active, &raw[i]) {
            Some(j) => {
                let ghost av = hatches_view(active@);
                active.remove(j);
                assert(hatches_view(active@) =~= av.remove(j as int));
            },
            None => {
                let ghost o0 = hatches_view(out@);
                out.push(clone_hatch(&raw[i]));
                assert(hatches_view(out@) == o0.push(tail[0]));
                assert(o0.push(tail[0]) + unmatched(tail.drop_first(), hatches_view(active@)) =~= o0 + (seq![tail[0]] + unmatched(tail.drop_first(), hatches_view(active@))));
            },
        }
        i = i + 1;
    }
    assert(rv.skip(raw@.len() as int) =~= Seq::<SHatch>::empty());
    assert(hatches_view(out@) + Seq::<SHatch>::empty() == hatches_view(out@));
    out
}

/// The non-gating advisory line for a commented-out hatch.
pub open spec fn advisory_line(h: SHatch) -> Seq<char> {
    "ADVISORY (non-gating): `"@ + h.rule + "` appears only in a comment/string at line "@ + decimal(h.line)
        + " — not a soundness violation (the kernel never sees it), but often a sign the model commented out a gap instead of closing it"@
}

/// Non-gating advisory lines for commented-out escape hatches, one per
/// finding of [`commented_escape_hatches`].
pub fn commented_escape_hatch_advisory(code: &str) -> (r: Vec<String>)
    ensures
        r@.map_values(|s: String| s@) == commented_spec(code@).map_values(|h: SHatch| advisory_line(h)),
{
    let hs = commented_escape_hatches(code);
    let mut out: Vec<String> = Vec::new();
    let mut i: usize = 0;
    while i < hs.len()
        invariant
            i <= hs@.len(),
            hatches_view(hs@) == commented_spec(code@),
            out@.map_values(|s: String| s@) == hatches_view(hs@).take(i as int).map_values(|h: SHatch| advisory_line(h)),
        decreases hs@.len() - i,
    {
        let h = &hs[i];
        let mut line = owned("ADVISORY (non-gating): `");
        line.append(h.rule);
        line.append("` appears only in a comment/string at line ");
        push_decimal(&mut line, h.line);
        line.append(" — not a soundness violation (the kernel never sees it), but often a sign the model commented out a gap instead of closing it");
        let ghost o0 = out@.map_values(|s: String| s@);
        let ghost lv = line@;
        out.push(line);
        proof {
            assert(lv == advisory_line(hatches_view(hs@)[i as int]));
            assert(out@.map_values(|s: String| s@) =~= o0.push(lv));
            assert(hatches_view(hs@).take(i + 1).map_values(|h: SHatch| advisory_line(h)) =~= hatches_view(hs@).take(i as int).map_values(|h: SHatch| advisory_line(h)).push(lv));
        }
        i = i + 1;
    }
    assert(hatches_view(hs@).take(hs@.len() as int) == hatches_view(hs@));
    out
}


// ===========================================================================
// Error spans
// ===========================================================================

/// A localized Lean error: a 1-based source line and the message.
#[derive(Debug, Clone, PartialEq, Eq)]
pub struct LeanError {
    /// 1-based line the error localizes to.
    pub line: usize,
    /// The compiler message.
    pub message: String,
}

/// The model of a [`LeanError`].
pub ghost struct SLeanError {
    pub line: nat,
    pub message: Seq<char>,
}

impl View for LeanError {
    type V = SLeanError;

    open spec fn view(&self) -> SLeanError {
        SLeanError { line: self.line as nat, message: self.message@ }
    }
}

impl LeanError {
    /// An error at `line` with `message`.
    pub fn new(line: usize, message: &str) -> (r: Self)
        ensures
            r.line == line,
            r.message@ == message@,
    {
        LeanError { line, message: owned(message) }
    }
}

/// The models of a sequence of errors.
pub open spec fn errors_view(es: Seq<LeanError>) -> Seq<SLeanError> {
    es.map_values(|e: LeanError| e@)
}

/// Error order: by line, then by message.
pub open spec fn error_lt(a: SLeanError, b: SLeanError) -> bool {
    a.line < b.line || (a.line == b.line && seq_lt(a.message, b.message))
}

/// `x` inserted into the sorted `s` after every error not ordered after it.
pub open spec fn insert_error_spec(s: Seq<SLeanError>, x: SLeanError) -> Seq<SLeanError>
    decreases s.len(),
{
    if s.len() == 0 {
        seq![x]
    } else if error_lt(x, s.last()) {
        insert_error_spec(s.drop_last(), x).push(s.last())
    } else {
        s.push(x)
    }
}

/// `s` stably sorted by line, then message.
pub open spec fn sort_errors(s: Seq<SLeanError>) -> Seq<SLeanError>
    decreases s.len(),
{
    if s.len() == 0 { s } else { insert_error_spec(sort_errors(s.drop_last()), s.last()) }
}

/// The last line a window around `e` reaches, capped by the source.
pub open spec fn window_reach(e: SLeanError, total: nat) -> nat {
    let cap: nat = if total >= 1 { total } else { 1 };
    if e.line + 2 < cap { e.line + 2 } else { cap }
}

/// The largest [`window_reach`] over `es` (1 when there are none).
pub open spec fn max_reach(es: Seq<SLeanError>, total: nat) -> nat
    decreases es.len(),
{
    if es.len() == 0 {
        1
    } else if es.len() == 1 {
        window_reach(es[0], total)
    } else {
        let m = max_reach(es.drop_last(), total);
        let r = window_reach(es.last(), total);
        if r > m { r } else { m }
    }
}

/// One context line of an error window: the marker (`>>>` on the error's
/// line), the right-aligned line number, ` | ` and the source line.
pub open spec fn window_line(lines: Seq<Seq<char>>, n: nat, err_line: nat, width: nat) -> Seq<char> {
    (if n == err_line { ">>>"@ } else { "   "@ }) + " "@ + pad_left(decimal(n), width) + " | "@ + lines[n - 1]
        + seq!['\n']
}

/// The context lines `lo..=hi` of an error window.
pub open spec fn window_lines(lines: Seq<Seq<char>>, lo: nat, hi: nat, err_line: nat, width: nat) -> Seq<char>
    decreases hi,
{
    if hi < lo || hi == 0 {
        Seq::empty()
    } else {
        window_lines(lines, lo, (hi - 1) as nat, err_line, width) + window_line(lines, hi, err_line, width)
    }
}

/// The block of one error: its heading, then the two lines either side of
/// it clamped to the source, or a note that its line is out of range.
pub open spec fn error_block(lines: Seq<Seq<char>>, e: SLeanError, width: nat) -> Seq<char> {
    let head = "error at line "@ + decimal(e.line) + ": "@ + e.message + seq!['\n'];
    let total = lines.len();
    if e.line == 0 || e.line > total {
        head + "    (line out of range; no source context)\n"@
    } else {
        let lo: nat = if e.line >= 3 { (e.line - 2) as nat } else { 1 };
        let hi: nat = if e.line + 2 < total { e.line + 2 } else { total };
        head + window_lines(lines, lo, hi, e.line, width)
    }
}

/// The repair message for `errors` against `code`: one block per error in
/// (line, message) order, blocks separated by blank lines; empty when there
/// are no errors.
pub open spec fn format_error_spans_spec(code: Seq<char>, errors: Seq<SLeanError>) -> Seq<char> {
    if errors.len() == 0 {
        Seq::empty()
    } else {
        let lines = lines_spec(code);
        let sorted = sort_errors(errors);
        let width = decimal(max_reach(sorted, lines.len())).len();
        join(sorted.map_values(|e: SLeanError| error_block(lines, e, width)), seq!['\n'])
    }
}

/// Whether every error's line leaves room for its window (`line + 2` fits a
/// `usize`).
pub open spec fn error_lines_fit(errors: Seq<SLeanError>) -> bool {
    forall|i: int| 0 <= i < errors.len() ==> #[trigger] errors[i].line + 2 <= usize::MAX
}

proof fn lemma_insert_error_at(s: Seq<SLeanError>, x: SLeanError, j: int)
    requires
        0 <= j <= s.len(),
        forall|k: int| j <= k < s.len() ==> error_lt(x, #[trigger] s[k]),
        j == 0 || !error_lt(x, s[j - 1]),
    ensures
        insert_error_spec(s, x) == s.take(j) + seq![x] + s.skip(j),
    decreases s.len(),
{
    if s.len() == 0 {
        assert(s.take(j) + seq![x] + s.skip(j) =~= seq![x]);
    } else if j == s.len() {
        assert(s.take(j) + seq![x] + s.skip(j) =~= s.push(x));
    } else {
        assert(error_lt(x, s[s.len() - 1]));
        let t = s.drop_last();
        assert forall|k: int| j <= k < t.len() implies error_lt(x, #[trigger] t[k]) by {
            assert(t[k] == s[k]);
        }
        if j > 0 {
            assert(t[j - 1] == s[j - 1]);
        }
        lemma_insert_error_at(t, x, j);
        assert((t.take(j) + seq![x] + t.skip(j)).push(s.last()) =~= s.take(j) + seq![x] + s.skip(j));
    }
}

/// Whether error `a` orders before `b`.
fn error_less(a: &LeanError, b: &LeanError) -> (r: bool)
    ensures
        r == error_lt(a@, b@),
{
    if a.line < b.line {
        return true;
    }
    if a.line != b.line {
        return false;
    }
    let am = chars_of(a.message.as_str());
    let bm = chars_of(b.message.as_str());
    chars_lt(&am, &bm)
}

/// `errors` stably sorted by line, then message.
fn sorted_errors(errors: &[LeanError]) -> (r: Vec<LeanError>)
    ensures
        errors_view(r@) == sort_errors(errors_view(errors@)),
{
    let ghost ev = errors_view(errors@);
    let mut out: Vec<LeanError> = Vec::new();
    let mut i: usize = 0;
    while i < errors.len()
        invariant
            i <= errors@.len(),
            ev == errors_view(errors@),
            errors_view(out@) == sort_errors(ev.take(i as int)),
        decreases errors@.len() - i,
    {
        let x = LeanError { line: errors[i].line, message: errors[i].message.clone() };
        let ghost s = errors_view(out@);
        let mut j: usize = out.len();
        while j > 0 && error_less(&x, &out[j - 1])
            invariant
                j <= out@.len(),
                s == errors_view(out@),
                forall|k: int| j <= k < s.len() ==> error_lt(x@, #[trigger] s[k]),
            decreases j,
        {
            assert(s[j - 1] == out@[j - 1]@);
            j = j - 1;
        }
        proof {
            if j > 0 {
                assert(s[j - 1] == out@[j - 1]@);
            }
            lemma_insert_error_at(s, x@, j as int);
            assert(ev.take(i + 1).drop_last() == ev.take(i as int));
            assert(ev.take(i + 1).last() == x@);
        }
        let ghost xv = x@;
        out.insert(j, x);
        assert(errors_view(out@) =~= s.take(j as int) + seq![xv] + s.skip(j as int));
        i = i + 1;
    }
    assert(ev.take(errors@.len() as int) == ev);
    out
}

/// Append one context line of an error window.
fn push_window_line(out: &mut String, lines: &Vec<Vec<char>>, n: usize, err_line: usize, width: usize)
    requires
        1 <= n <= lines@.len(),
    ensures
        final(out)@ == old(out)@ + window_line(lines@.map_values(|l: Vec<char>| l@), n as nat, err_line as nat, width as nat),
{
    if n == err_line {
        out.append(">>>");
    } else {
        out.append("   ");
    }
    out.append(" ");
    push_padded(out, n, width);
    out.append(" | ");
    push_range(out, &lines[n - 1], 0, lines[n - 1].len());
    push_char(out, '\n');
    proof {
        assert(lines@[n - 1]@.subrange(0, lines@[n - 1]@.len() as int) == lines@[n - 1]@);
        assert(lines@.map_values(|l: Vec<char>| l@)[n - 1] == lines@[n - 1]@);
    }
}

/// Append the context lines `lo..=hi` of an error window.
fn push_window(out: &mut String, lines: &Vec<Vec<char>>, lo: usize, hi: usize, err_line: usize, width: usize)
    requires
        1 <= lo <= hi + 1,
        hi <= lines@.len(),
    ensures
        final(out)@ == old(out)@ + window_lines(lines@.map_values(|l: Vec<char>| l@), lo as nat, hi as nat, err_line as nat, width as nat),
{
    let ghost ls = lines@.map_values(|l: Vec<char>| l@);
    let mut idx: usize = lo - 1;
    assert(window_lines(ls, lo as nat, (lo - 1) as nat, err_line as nat, width as nat) == Seq::<char>::empty());
    while idx < hi
        invariant
            1 <= lo <= idx + 1,
            idx <= hi <= lines@.len(),
            ls == lines@.map_values(|l: Vec<char>| l@),
            out@ == old(out)@ + window_lines(ls, lo as nat, idx as nat, err_line as nat, width as nat),
        decreases hi - idx,
    {
        let n = idx + 1;
        push_window_line(out, lines, n, err_line, width);
        assert(window_lines(ls, lo as nat, n as nat, err_line as nat, width as nat) == window_lines(ls, lo as nat, idx as nat, err_line as nat, width as nat) + window_line(ls, n as nat, err_line as nat, width as nat));
        idx = n;
    }
}

/// Append the block of error `e` (see [`error_block`]).
fn push_error_block(out: &mut String, lines: &Vec<Vec<char>>, e: &LeanError, width: usize)
    requires
        e.line + 2 <= usize::MAX,
    ensures
        final(out)@ == old(out)@ + error_block(lines@.map_values(|l: Vec<char>| l@), e@, width as nat),
{
    let total = lines.len();
    out.append("error at line ");
    push_decimal(out, e.line);
    out.append(": ");
    out.append(e.message.as_str());
    push_char(out, '\n');
    if e.line == 0 || e.line > total {
        out.append("    (line out of range; no source context)\n");
    } else {
        let lo = if e.line >= 3 { e.line - 2 } else { 1 };
        let hi = if e.line + 2 < total { e.line + 2 } else { total };
        push_window(out, lines, lo, hi, e.line, width);
    }
}

/// Render Lean `errors` as a repair message: for each error, in (line,
/// message) order, its heading and its line marked with `>>>` among up to two
/// lines of context on each side; an error whose line is out of range gets a
/// note instead. Blocks are separated by blank lines; no errors give the
/// empty string.
pub fn format_error_spans(code: &str, errors: &[LeanError]) -> (r: String)
    requires
        error_lines_fit(errors_view(errors@)),
    ensures
        r@ == format_error_spans_spec(code@, errors_view(errors@)),
{
    if errors.len() == 0 {
        return String::new();
    }
    let v = chars_of(code);
    let ws = line_windows(&v);
    let ghost ls = lines_spec(v@);
    let mut lines: Vec<Vec<char>> = Vec::new();
    let mut i: usize = 0;
    while i < ws.len()
        invariant
            line_windows_of(v@, ws@),
            ls == lines_spec(v@),
            ws@.len() == ls.len(),
            i <= ws@.len(),
            lines@.map_values(|l: Vec<char>| l@) == ls.take(i as int),
        decreases ws@.len() - i,
    {
        let (a, b) = ws[i];
        proof {
            lemma_line_window(v@, ws@, i as int);
        }
        let mut line: Vec<char> = Vec::new();
        crate::text::extend_chars(&mut line, &v, a, b);
        let ghost l0 = lines@.map_values(|l: Vec<char>| l@);
        let ghost lv = line@;
        lines.push(line);
        assert(lines@.map_values(|l: Vec<char>| l@) =~= l0.push(lv));
        assert(ls.take(i + 1) =~= ls.take(i as int).push(ls[i as int]));
        i = i + 1;
    }
    assert(ls.take(ls.len() as int) == ls);
    let total = lines.len();
    let sorted = sorted_errors(errors);
    let ghost sv = errors_view(sorted@);
    proof {
        lemma_sort_errors_fit(errors_view(errors@));
    }
    let cap = if total >= 1 { total } else { 1 };
    let mut max_no: usize = 1;
    let mut k: usize = 0;
    while k < sorted.len()
        invariant
            k <= sorted@.len(),
            sv == errors_view(sorted@),
            sv.len() > 0,
            cap == (if total >= 1 { total } else { 1 }),
            forall|q: int| 0 <= q < sv.len() ==> #[trigger] sv[q].line + 2 <= usize::MAX,
            k == 0 ==> max_no == 1,
            k > 0 ==> max_no == max_reach(sv.take(k as int), total as nat),
        decreases sorted@.len() - k,
    {
        proof {
            assert(sv[k as int] == sorted@[k as int]@);
            assert(sv.take(k + 1).drop_last() == sv.take(k as int));
            assert(sv.take(k + 1).last() == sv[k as int]);
            assert(sv[k as int].line + 2 <= usize::MAX);
        }
        let reach0 = sorted[k].line + 2;
        let reach = if reach0 < cap { reach0 } else { cap };
        if k == 0 || reach > max_no {
            max_no = reach;
        }
        k = k + 1;
    }
    assert(sv.take(sv.len() as int) == sv);
    let width = decimal_len(max_no);
    let ghost blocks = sv.map_values(|e: SLeanError| error_block(ls, e, width as nat));
    let mut out = String::new();
    let mut j: usize = 0;
    while j < sorted.len()
        invariant
            j <= sorted@.len(),
            sv == errors_view(sorted@),
            lines@.map_values(|l: Vec<char>| l@) == ls,
            total == ls.len(),
            blocks == sv.map_values(|e: SLeanError| error_block(ls, e, width as nat)),
            forall|q: int| 0 <= q < sv.len() ==> #[trigger] sv[q].line + 2 <= usize::MAX,
            out@ == join(blocks.take(j as int), seq!['\n']),
        decreases sorted@.len() - j,
    {
        let e = &sorted[j];
        proof {
            assert(sv[j as int] == e@);
            crate::text::lemma_join_push(blocks.take(j as int), seq!['\n'], blocks[j as int]);
            assert(blocks.take(j + 1) == blocks.take(j as int).push(blocks[j as int]));
        }
        if j > 0 {
            push_char(&mut out, '\n');
        }
        assert(sv[j as int].line + 2 <= usize::MAX);
        push_error_block(&mut out, &lines, e, width);
        j = j + 1;
    }
    assert(blocks.take(sv.len() as int) == blocks);
    out
}

proof fn lemma_insert_error_fits(s: Seq<SLeanError>, x: SLeanError)
    requires
        error_lines_fit(s),
        x.line + 2 <= usize::MAX,
    ensures
        error_lines_fit(insert_error_spec(s, x)),
        insert_error_spec(s, x).len() == s.len() + 1,
    decreases s.len(),
{
    if s.len() > 0 && error_lt(x, s.last()) {
        let t = s.drop_last();
        assert forall|i: int| 0 <= i < t.len() implies #[trigger] t[i].line + 2 <= usize::MAX by {
            assert(t[i] == s[i]);
        }
        lemma_insert_error_fits(t, x);
        let r = insert_error_spec(t, x);
        assert forall|i: int| 0 <= i < r.push(s.last()).len() implies #[trigger] r.push(s.last())[i].line + 2 <= usize::MAX by {
            if i < r.len() {
                assert(r.push(s.last())[i] == r[i]);
            } else {
                assert(s.last() == s[s.len() - 1]);
            }
        }
    } else if s.len() > 0 {
        assert forall|i: int| 0 <= i < s.push(x).len() implies #[trigger] s.push(x)[i].line + 2 <= usize::MAX by {
            if i < s.len() {
                assert(s.push(x)[i] == s[i]);
            }
        }
    }
}

proof fn lemma_sort_errors_fit(s: Seq<SLeanError>)
    requires
        error_lines_fit(s),
    ensures
        error_lines_fit(sort_errors(s)),
        sort_errors(s).len() == s.len(),
    decreases s.len(),
{
    if s.len() > 0 {
        let t = s.drop_last();
        assert forall|i: int| 0 <= i < t.len() implies #[trigger] t[i].line + 2 <= usize::MAX by {
            assert(t[i] == s[i]);
        }
        lemma_sort_errors_fit(t);
        assert(s.last() == s[s.len() - 1]);
        lemma_insert_error_fits(sort_errors(t), s.last());
    }
}

// ===========================================================================
// Declaration blocks
// ===========================================================================

/// The declaration keywords located in a source, tried in this order.
pub open spec fn decl_keywords() -> Seq<Seq<char>> {
    seq!["theorem"@, "lemma"@, "example"@, "def"@]
}

/// Whether `w` occurs at `i` of `s` and is not followed by a word character.
pub open spec fn word_at(s: Seq<char>, i: int, w: Seq<char>) -> bool {
    &&& 0 <= i
    &&& i + w.len() <= s.len()
    &&& s.subrange(i, i + w.len()) == w
    &&& (i + w.len() == s.len() || !is_word_char(s[i + w.len()]))
}

/// The index of the first of `decl_keywords()[k..]` that occurs at `i` as a
/// word.
pub open spec fn first_keyword_from(s: Seq<char>, i: int, k: int) -> Option<int>
    decreases 4 - k,
{
    if k < 0 || k >= 4 {
        None
    } else if word_at(s, i, decl_keywords()[k]) {
        Some(k)
    } else {
        first_keyword_from(s, i, k + 1)
    }
}

/// The declaration keyword starting at `i` on a word boundary, if any.
pub open spec fn keyword_at(s: Seq<char>, i: int) -> Option<int> {
    if 0 <= i < s.len() && (i == 0 || !is_word_char(s[i - 1])) {
        first_keyword_from(s, i, 0)
    } else {
        None
    }
}

/// Opening brackets of a signature.
pub open spec fn opener(c: char) -> bool {
    c == '(' || c == '[' || c == '{' || c == '⟨' || c == '⦃'
}

/// Closing brackets of a signature.
pub open spec fn closer(c: char) -> bool {
    c == ')' || c == ']' || c == '}' || c == '⟩' || c == '⦄'
}

/// Where a signature scanned from `i` at bracket depth `depth` ends: the
/// first top-level `:=`, else the first top-level declaration keyword, else
/// the end.
pub open spec fn sig_end_from(s: Seq<char>, i: int, depth: nat) -> int
    decreases s.len() - i,
{
    if i < 0 || i >= s.len() {
        s.len() as int
    } else if opener(s[i]) {
        sig_end_from(s, i + 1, depth + 1)
    } else if closer(s[i]) {
        sig_end_from(s, i + 1, if depth > 0 { (depth - 1) as nat } else { 0 })
    } else if s[i] == ':' && depth == 0 && i + 1 < s.len() && s[i + 1] == '=' {
        i
    } else if depth == 0 && keyword_at(s, i) is Some {
        i
    } else {
        sig_end_from(s, i + 1, depth)
    }
}

pub(crate) proof fn lemma_sig_end_from(s: Seq<char>, i: int, depth: nat)
    requires
        0 <= i,
    ensures
        i <= sig_end_from(s, i, depth) || i > s.len(),
        sig_end_from(s, i, depth) <= s.len(),
    decreases s.len() - i,
{
    if i < s.len() {
        if opener(s[i]) {
            lemma_sig_end_from(s, i + 1, depth + 1);
        } else if closer(s[i]) {
            lemma_sig_end_from(s, i + 1, if depth > 0 { (depth - 1) as nat } else { 0 });
        } else {
            lemma_sig_end_from(s, i + 1, depth);
        }
    }
}

/// The name and signature end of a declaration whose keyword (number `k`)
/// ends at `after_kw`: the name is the identifier characters after
/// whitespace (`<example>` for a nameless `example`; no declaration
/// otherwise).
pub open spec fn parse_decl_spec(s: Seq<char>, k: int, after_kw: int) -> Option<(Seq<char>, int)> {
    let j = s.len() - ltrim(s.skip(after_kw), white_pred()).len();
    let rest = s.skip(j);
    let name_end = j + match first_where(rest, class_pred(CharClass::NonIdent)) {
        Some(e) => e,
        None => rest.len() as int,
    };
    let name = s.subrange(j, name_end);
    let sig_end = sig_end_from(s, name_end, 0);
    if name.len() == 0 {
        if k == 2 {
            Some(("<example>"@, sig_end))
        } else {
            None
        }
    } else {
        Some((name, sig_end))
    }
}

/// The declarations located in `s` from `i` on: name, keyword position and
/// signature end, each scan resuming at the signature end.
pub open spec fn positions_from(s: Seq<char>, i: int) -> Seq<(Seq<char>, int, int)>
    decreases s.len() - i,
{
    if i < 0 || i >= s.len() {
        Seq::empty()
    } else {
        match keyword_at(s, i) {
            Some(k) => match parse_decl_spec(s, k, i + decl_keywords()[k].len()) {
                Some((name, e)) => if i < e <= s.len() {
                    seq![(name, i, e)] + positions_from(s, e)
                } else {
                    positions_from(s, i + 1)
                },
                None => positions_from(s, i + 1),
            },
            None => positions_from(s, i + 1),
        }
    }
}

/// The first located declaration lies inside the text: its keyword comes
/// before its signature end, which is at most the length.
pub proof fn lemma_first_position(s: Seq<char>, i: int)
    requires
        0 <= i,
    ensures
        positions_from(s, i).len() > 0 ==> i <= positions_from(s, i)[0].1 < positions_from(s, i)[0].2 <= s.len(),
    decreases s.len() - i,
{
    if i < s.len() {
        match keyword_at(s, i) {
            Some(k) => match parse_decl_spec(s, k, i + decl_keywords()[k].len()) {
                Some((name, e)) => if !(i < e <= s.len()) {
                    lemma_first_position(s, i + 1);
                },
                None => lemma_first_position(s, i + 1),
            },
            None => lemma_first_position(s, i + 1),
        }
    }
}

/// The last `i` in `[floor, min(end, len))` with `raw[i] == a` and
/// `raw[i + 1] == b`.
pub open spec fn rfind_pair_spec(raw: Seq<char>, floor: int, end: int, a: char, b: char) -> Option<int>
    decreases end,
{
    let e = if end < raw.len() { end } else { raw.len() as int };
    if e <= floor || e <= 0 {
        None
    } else if raw[e - 1] == a && e < raw.len() && raw[e] == b {
        Some(e - 1)
    } else {
        rfind_pair_spec(raw, floor, e - 1, a, b)
    }
}

/// The `[` matching a `]`, scanning back from `i` at bracket depth `depth`
/// and not below `floor`.
pub open spec fn rfind_bracket_spec(raw: Seq<char>, floor: int, i: int, depth: int) -> Option<int>
    decreases i,
{
    if i < 0 || i >= raw.len() {
        None
    } else {
        let d = if raw[i] == ']' { depth + 1 } else if raw[i] == '[' { depth - 1 } else { depth };
        if raw[i] == '[' && d == 0 {
            Some(i)
        } else if i <= floor || i == 0 {
            None
        } else {
            rfind_bracket_spec(raw, floor, i - 1, d)
        }
    }
}

/// The modifiers a header may carry before its keyword.
pub open spec fn header_modifiers() -> Seq<Seq<char>> {
    seq!["private"@, "protected"@, "noncomputable"@, "partial"@, "unsafe"@, "scoped"@, "local"@]
}

/// Lean word characters as a predicate.
pub open spec fn word_pred() -> spec_fn(char) -> bool {
    |c: char| is_word_char(c)
}

/// Where the header of a declaration whose keyword is at `p` starts: walking
/// back from `p`, never below `floor`, over whitespace, a `/- … -/` comment,
/// an `@[…]` attribute list, or a modifier keyword.
pub open spec fn header_start_spec(raw: Seq<char>, p: int, floor: int) -> int
    decreases p,
{
    if p < floor || floor < 0 || p > raw.len() {
        p
    } else {
        let q = floor + rtrim(raw.subrange(floor, p), white_pred()).len();
        let doc = if q - floor >= 2 && raw[q - 1] == '/' && raw[q - 2] == '-' {
            rfind_pair_spec(raw, floor, q - 2, '/', '-')
        } else {
            None
        };
        match doc {
            Some(open) => if floor <= open < p { header_start_spec(raw, open, floor) } else { q },
            None => {
                let attr = if q > floor && raw[q - 1] == ']' {
                    match rfind_bracket_spec(raw, floor, q - 1, 0) {
                        Some(open) => if open > floor && raw[open - 1] == '@' { Some(open - 1) } else { None },
                        None => None,
                    }
                } else {
                    None
                };
                match attr {
                    Some(a) => if floor <= a < p { header_start_spec(raw, a, floor) } else { q },
                    None => {
                        let w = floor + rtrim(raw.subrange(floor, q), word_pred()).len();
                        if header_modifiers().contains(raw.subrange(w, q)) && floor <= w < p {
                            header_start_spec(raw, w, floor)
                        } else {
                            q
                        }
                    },
                }
            },
        }
    }
}



/// Whether `w` occurs at `i` of `s` as a word (see [`word_at`]).
pub(crate) fn word_at_exec(s: &Vec<char>, i: usize, w: &Vec<char>) -> (r: bool)
    requires
        i <= s@.len(),
    ensures
        r == word_at(s@, i as int, w@),
{
    let n = s.len();
    if w.len() > n - i {
        return false;
    }
    if !window_eq(s, i, w) {
        return false;
    }
    let e = i + w.len();
    e == n || !is_word(s[e])
}

/// [`keyword_at`] computed, given the keyword list.
pub(crate) fn keyword_at_exec(s: &Vec<char>, i: usize, kws: &Vec<Vec<char>>) -> (r: Option<usize>)
    requires
        i < s@.len(),
        words_view(kws@) == decl_keywords(),
    ensures
        match r {
            Some(k) => k < 4 && keyword_at(s@, i as int) == Some(k as int),
            None => keyword_at(s@, i as int) is None,
        },
{
    if i > 0 && is_word(s[i - 1]) {
        return None;
    }
    assert(kws@.len() == words_view(kws@).len());
    let mut k: usize = 0;
    while k < 4
        invariant
            k <= 4,
            i < s@.len(),
            i == 0 || !is_word_char(s@[i - 1]),
            kws@.len() == 4,
            words_view(kws@) == decl_keywords(),
            first_keyword_from(s@, i as int, 0) == first_keyword_from(s@, i as int, k as int),
        decreases 4 - k,
    {
        assert(words_view(kws@)[k as int] == kws@[k as int]@);
        if word_at_exec(s, i, &kws[k]) {
            return Some(k);
        }
        k = k + 1;
    }
    None
}

pub(crate) proof fn lemma_first_keyword(s: Seq<char>, i: int, k: int)
    requires
        0 <= k,
    ensures
        match first_keyword_from(s, i, k) {
            Some(j) => k <= j < 4 && word_at(s, i, decl_keywords()[j]),
            None => true,
        },
    decreases 4 - k,
{
    if k < 4 && !word_at(s, i, decl_keywords()[k]) {
        lemma_first_keyword(s, i, k + 1);
    }
}

/// [`sig_end_from`] from `start` at depth 0.
pub(crate) fn signature_end(s: &Vec<char>, start: usize, kws: &Vec<Vec<char>>) -> (r: usize)
    requires
        start <= s@.len(),
        words_view(kws@) == decl_keywords(),
    ensures
        r == sig_end_from(s@, start as int, 0),
        start <= r <= s@.len(),
{
    let n = s.len();
    let mut depth: usize = 0;
    let mut i: usize = start;
    while i < n
        invariant
            start <= i <= n == s@.len(),
            depth <= i,
            words_view(kws@) == decl_keywords(),
            sig_end_from(s@, start as int, 0) == sig_end_from(s@, i as int, depth as nat),
        decreases n - i,
    {
        let c = s[i];
        if c == '(' || c == '[' || c == '{' || c == '⟨' || c == '⦃' {
            depth = depth + 1;
        } else if c == ')' || c == ']' || c == '}' || c == '⟩' || c == '⦄' {
            if depth > 0 {
                depth = depth - 1;
            }
        } else if c == ':' && depth == 0 && i + 1 < n && s[i + 1] == '=' {
            return i;
        } else if depth == 0 && keyword_at_exec(s, i, kws).is_some() {
            return i;
        }
        i = i + 1;
    }
    n
}

/// A located declaration: name, keyword position and signature end.
pub(crate) struct DeclPos {
    pub(crate) name: String,
    pub(crate) kw_start: usize,
    pub(crate) sig_end: usize,
}

/// The models of located declarations.
pub(crate) open spec fn positions_view(ps: Seq<DeclPos>) -> Seq<(Seq<char>, int, int)> {
    ps.map_values(|p: DeclPos| (p.name@, p.kw_start as int, p.sig_end as int))
}

/// [`parse_decl_spec`] computed.
fn parse_decl_at(s: &Vec<char>, k: usize, after_kw: usize, kws: &Vec<Vec<char>>) -> (r: Option<(String, usize)>)
    requires
        after_kw <= s@.len(),
        words_view(kws@) == decl_keywords(),
    ensures
        match r {
            Some((name, e)) => parse_decl_spec(s@, k as int, after_kw as int) == Some((name@, e as int)) && e <= s@.len(),
            None => parse_decl_spec(s@, k as int, after_kw as int) is None,
        },
{
    let n = s.len();
    let j = skip_class(s, after_kw, n, CharClass::White);
    let e = find_class(s, j, n, CharClass::NonIdent);
    proof {
        assert(s@.skip(after_kw as int) == s@.subrange(after_kw as int, n as int));
        assert(class_pred(CharClass::White) == white_pred());
        assert(s@.skip(j as int) == s@.subrange(j as int, n as int));
    }
    let sig_end = signature_end(s, e, kws);
    if e == j {
        if k == 2 {
            Some((owned("<example>"), sig_end))
        } else {
            None
        }
    } else {
        Some((string_of_range(s, j, e), sig_end))
    }
}

/// Every declaration located in the sanitized `s`.
pub(crate) fn decl_positions(s: &Vec<char>) -> (r: Vec<DeclPos>)
    ensures
        positions_view(r@) == positions_from(s@, 0),
{
    let kws = word_list(&["theorem", "lemma", "example", "def"]);
    assert(words_view(kws@) =~= decl_keywords());
    assert(kws@.len() == 4);
    let n = s.len();
    let mut out: Vec<DeclPos> = Vec::new();
    let mut i: usize = 0;
    assert(positions_view(out@) + positions_from(s@, 0) =~= positions_from(s@, 0));
    while i < n
        invariant
            i <= n == s@.len(),
            kws@.len() == 4,
            words_view(kws@) == decl_keywords(),
            positions_view(out@) + positions_from(s@, i as int) == positions_from(s@, 0),
        decreases n - i,
    {
        let ghost o0 = positions_view(out@);
        if let Some(k) = keyword_at_exec(s, i, &kws) {
            let klen = kws[k].len();
            proof {
                assert(words_view(kws@)[k as int] == kws@[k as int]@);
                lemma_first_keyword(s@, i as int, 0);
            }
            if let Some((name, e)) = parse_decl_at(s, k, i + klen, &kws) {
                if e > i {
                    let ghost nv = name@;
                    out.push(DeclPos { name, kw_start: i, sig_end: e });
                    assert(positions_view(out@) =~= o0.push((nv, i as int, e as int)));
                    assert(o0.push((nv, i as int, e as int)) + positions_from(s@, e as int) =~= o0 + positions_from(s@, i as int));
                    i = e;
                    continue;
                }
            }
        }
        i = i + 1;
    }
    assert(positions_view(out@) + Seq::<(Seq<char>, int, int)>::empty() =~= positions_view(out@));
    out
}

/// [`rfind_pair_spec`] computed.
fn rfind_pair(raw: &Vec<char>, floor: usize, end: usize, a: char, b: char) -> (r: Option<usize>)
    ensures
        match r {
            Some(i) => rfind_pair_spec(raw@, floor as int, end as int, a, b) == Some(i as int) && floor <= i < end,
            None => rfind_pair_spec(raw@, floor as int, end as int, a, b) is None,
        },
{
    let n = raw.len();
    let mut e: usize = if end < n { end } else { n };
    assert(rfind_pair_spec(raw@, floor as int, end as int, a, b) == rfind_pair_spec(raw@, floor as int, e as int, a, b));
    while e > floor
        invariant
            e <= n == raw@.len(),
            e <= end,
            rfind_pair_spec(raw@, floor as int, end as int, a, b) == rfind_pair_spec(raw@, floor as int, e as int, a, b),
        decreases e,
    {
        let i = e - 1;
        if raw[i] == a && e < n && raw[e] == b {
            return Some(i);
        }
        e = i;
    }
    None
}

/// [`rfind_bracket_spec`] computed from the `]` at `close`.
fn rfind_matching_bracket(raw: &Vec<char>, floor: usize, close: usize) -> (r: Option<usize>)
    requires
        floor <= close < raw@.len(),
    ensures
        match r {
            Some(i) => rfind_bracket_spec(raw@, floor as int, close as int, 0) == Some(i as int) && floor <= i <= close,
            None => rfind_bracket_spec(raw@, floor as int, close as int, 0) is None,
        },
{
    let mut depth: i128 = 0;
    let mut i: usize = close;
    loop
        invariant
            floor <= i <= close < raw@.len(),
            -(close - i) <= depth <= close - i,
            rfind_bracket_spec(raw@, floor as int, close as int, 0) == rfind_bracket_spec(raw@, floor as int, i as int, depth as int),
        decreases i,
    {
        if raw[i] == ']' {
            depth = depth + 1;
        } else if raw[i] == '[' {
            depth = depth - 1;
            if depth == 0 {
                return Some(i);
            }
        }
        if i == floor || i == 0 {
            return None;
        }
        i = i - 1;
    }
}

/// Whether `raw[w..q]` is one of the header modifiers.
fn is_modifier(raw: &Vec<char>, w: usize, q: usize, mods: &Vec<Vec<char>>) -> (r: bool)
    requires
        w <= q <= raw@.len(),
        words_view(mods@) == header_modifiers(),
    ensures
        r == header_modifiers().contains(raw@.subrange(w as int, q as int)),
{
    let mut k: usize = 0;
    while k < mods.len()
        invariant
            k <= mods@.len(),
            w <= q <= raw@.len(),
            words_view(mods@) == header_modifiers(),
            forall|j: int| 0 <= j < k ==> header_modifiers()[j] != raw@.subrange(w as int, q as int),
        decreases mods@.len() - k,
    {
        assert(words_view(mods@)[k as int] == mods@[k as int]@);
        if mods[k].len() == q - w && window_eq(raw, w, &mods[k]) {
            assert(header_modifiers()[k as int] == raw@.subrange(w as int, q as int));
            return true;
        }
        k = k + 1;
    }
    false
}

/// [`header_start_spec`] computed.
pub(crate) fn header_start(raw: &Vec<char>, kw_start: usize, floor: usize, mods: &Vec<Vec<char>>) -> (r: usize)
    requires
        words_view(mods@) == header_modifiers(),
    ensures
        r == header_start_spec(raw@, if kw_start < raw@.len() { kw_start as int } else { raw@.len() as int }, floor as int),
{
    let n = raw.len();
    let mut p: usize = if kw_start < n { kw_start } else { n };
    let ghost target = header_start_spec(raw@, p as int, floor as int);
    assert(target == header_start_spec(raw@, if kw_start < raw@.len() { kw_start as int } else { raw@.len() as int }, floor as int));
    if p < floor {
        return p;
    }
    loop
        invariant
            target == header_start_spec(raw@, if kw_start < raw@.len() { kw_start as int } else { raw@.len() as int }, floor as int),
            floor <= p <= n == raw@.len(),
            words_view(mods@) == header_modifiers(),
            target == header_start_spec(raw@, p as int, floor as int),
        decreases p,
    {
        let q = rskip_class(raw, floor, p, CharClass::White);
        proof {
            assert(class_pred(CharClass::White) == white_pred());
        }
        let ghost doc = if q - floor >= 2 && raw@[q - 1] == '/' && raw@[q - 2] == '-' {
            rfind_pair_spec(raw@, floor as int, q - 2, '/', '-')
        } else {
            None
        };
        if q - floor >= 2 && raw[q - 1] == '/' && raw[q - 2] == '-' {
            if let Some(open) = rfind_pair(raw, floor, q - 2, '/', '-') {
                p = open;
                continue;
            }
        }
        assert(doc is None);
        let ghost attr = if q > floor && raw@[q - 1] == ']' {
            match rfind_bracket_spec(raw@, floor as int, q - 1, 0) {
                Some(open) => if open > floor && raw@[open - 1] == '@' { Some(open - 1) } else { None },
                None => None,
            }
        } else {
            None
        };
        if q > floor && raw[q - 1] == ']' {
            if let Some(open) = rfind_matching_bracket(raw, floor, q - 1) {
                if open > floor && raw[open - 1] == '@' {
                    p = open - 1;
                    continue;
                }
            }
        }
        assert(attr is None);
        let w = rskip_class(raw, floor, q, CharClass::Word);
        proof {
            assert(class_pred(CharClass::Word) == word_pred());
        }
        let ghost wspec = floor + rtrim(raw@.subrange(floor as int, q as int), word_pred()).len();
        assert(wspec == w);
        if w < q && is_modifier(raw, w, q, mods) {
            p = w;
            continue;
        }
        proof {
            if w == q {
                assert(!header_modifiers().contains(raw@.subrange(w as int, q as int))) by {
                    reveal_strlit("private");
                    reveal_strlit("protected");
                    reveal_strlit("noncomputable");
                    reveal_strlit("partial");
                    reveal_strlit("unsafe");
                    reveal_strlit("scoped");
                    reveal_strlit("local");
                    if header_modifiers().contains(raw@.subrange(w as int, q as int)) {
                        let j = choose|j: int| 0 <= j < header_modifiers().len() && header_modifiers()[j] == raw@.subrange(w as int, q as int);
                        assert(header_modifiers()[j].len() > 0);
                    }
                }
            }
            assert(!(header_modifiers().contains(raw@.subrange(w as int, q as int)) && floor <= w < p));
            assert(q == floor + rtrim(raw@.subrange(floor as int, p as int), white_pred()).len());
            assert(!(p < floor || floor < 0 || p > raw@.len()));
            assert(header_start_spec(raw@, p as int, floor as int) == q as int);
        }
        return q;
    }
}


/// The block starts of located declarations `ps[..n]`: each at its header
/// start but never before the previous signature's end; and that end.
pub open spec fn starts_upto(raw: Seq<char>, ps: Seq<(Seq<char>, int, int)>, n: int) -> (Seq<int>, int)
    decreases n,
{
    if n <= 0 {
        (Seq::empty(), 0)
    } else {
        let (ss, floor) = starts_upto(raw, ps, n - 1);
        let kw = if ps[n - 1].1 < raw.len() { ps[n - 1].1 } else { raw.len() as int };
        let h = header_start_spec(raw, kw, floor);
        (ss.push(if h > floor { h } else { floor }), if ps[n - 1].2 < raw.len() { ps[n - 1].2 } else { raw.len() as int })
    }
}

/// The text of block `i`: from its start to the next block's start (or the
/// end), trimmed.
pub open spec fn block_text(raw: Seq<char>, ss: Seq<int>, i: int) -> Seq<char> {
    let len = raw.len() as int;
    let lo = if ss[i] < len { ss[i] } else { len };
    let hi0 = if i + 1 < ss.len() { ss[i + 1] } else { len };
    let hi = if hi0 < len { hi0 } else { len };
    trim(raw.subrange(lo, if hi > lo { hi } else { lo }), white_pred())
}

/// The preamble and the (name, text) blocks of a Lean source: declarations
/// are located over its sanitized text, and each block runs from its header
/// (docstring, attributes, modifiers) to the next block.
pub open spec fn decl_blocks_spec(src: Seq<char>) -> (Seq<char>, Seq<(Seq<char>, Seq<char>)>) {
    let ps = positions_from(sanitize_spec(src), 0);
    if ps.len() == 0 {
        (trim(src, white_pred()), Seq::empty())
    } else {
        let ss = starts_upto(src, ps, ps.len() as int).0;
        let first = if ss[0] < src.len() { ss[0] } else { src.len() as int };
        (
            trim(src.take(first), white_pred()),
            Seq::new(ps.len(), |i: int| (ps[i].0, block_text(src, ss, i))),
        )
    }
}

/// A whole declaration block: its name and its source text (docstring,
/// attributes, signature and body).
#[derive(Debug, Clone, PartialEq, Eq)]
pub struct DeclBlock {
    pub name: String,
    pub text: String,
}

/// The models of declaration blocks.
pub open spec fn blocks_view(bs: Seq<DeclBlock>) -> Seq<(Seq<char>, Seq<char>)> {
    bs.map_values(|b: DeclBlock| (b.name@, b.text@))
}

/// Split `src` into its preamble and declaration blocks. Declarations are
/// located over the sanitized source, so a keyword in a comment or string
/// starts no block, but block text is taken from the raw source, where each
/// block starts at its docstring, attributes or modifiers.
pub fn decl_blocks(src: &str) -> (r: (String, Vec<DeclBlock>))
    ensures
        decl_blocks_spec(src@) == (r.0@, blocks_view(r.1@)),
{
    let raw = chars_of(src);
    let san = sanitize_chars(&raw);
    let ps = decl_positions(&san);
    let ghost pv = positions_view(ps@);
    let n = raw.len();
    if ps.len() == 0 {
        let (a, b) = trim_class(&raw, 0, n, CharClass::White);
        proof {
            assert(raw@.subrange(0, n as int) == raw@);
            assert(class_pred(CharClass::White) == white_pred());
        }
        return (string_of_range(&raw, a, b), Vec::new());
    }
    let mods = word_list(&["private", "protected", "noncomputable", "partial", "unsafe", "scoped", "local"]);
    assert(words_view(mods@) =~= header_modifiers());
    let mut starts: Vec<usize> = Vec::new();
    let mut floor: usize = 0;
    let mut i: usize = 0;
    while i < ps.len()
        invariant
            i <= ps@.len(),
            pv == positions_view(ps@),
            n == raw@.len(),
            floor <= n,
            words_view(mods@) == header_modifiers(),
            starts_upto(raw@, pv, i as int) == (starts@.map_values(|x: usize| x as int), floor as int),
            starts@.len() == i,
        decreases ps@.len() - i,
    {
        let p = &ps[i];
        assert(pv[i as int] == (p.name@, p.kw_start as int, p.sig_end as int));
        let h = header_start(&raw, p.kw_start, floor, &mods);
        let st = if h > floor { h } else { floor };
        let ghost s0 = starts@.map_values(|x: usize| x as int);
        starts.push(st);
        assert(starts@.map_values(|x: usize| x as int) =~= s0.push(st as int));
        floor = if p.sig_end < n { p.sig_end } else { n };
        i = i + 1;
    }
    let ghost ss = starts@.map_values(|x: usize| x as int);
    assert(ss == starts_upto(raw@, pv, pv.len() as int).0);
    let first = if starts[0] < n { starts[0] } else { n };
    let (pa, pb) = trim_class(&raw, 0, first, CharClass::White);
    proof {
        assert(class_pred(CharClass::White) == white_pred());
        assert(raw@.take(first as int) == raw@.subrange(0, first as int));
        assert(ss[0] == starts@[0] as int);
    }
    let preamble = string_of_range(&raw, pa, pb);
    let mut blocks: Vec<DeclBlock> = Vec::new();
    let mut j: usize = 0;
    while j < ps.len()
        invariant
            j <= ps@.len(),
            pv == positions_view(ps@),
            starts@.len() == ps@.len(),
            n == raw@.len(),
            ss == starts@.map_values(|x: usize| x as int),
            blocks_view(blocks@) == Seq::new(j as nat, |k: int| (pv[k].0, block_text(raw@, ss, k))),
        decreases ps@.len() - j,
    {
        let lo = if starts[j] < n { starts[j] } else { n };
        let hi0 = if j + 1 < starts.len() { starts[j + 1] } else { n };
        let hi = if hi0 < n { hi0 } else { n };
        let top = if hi > lo { hi } else { lo };
        let (ta, tb) = trim_class(&raw, lo, top, CharClass::White);
        proof {
            assert(class_pred(CharClass::White) == white_pred());
            assert(ss[j as int] == starts@[j as int] as int);
            if j + 1 < starts@.len() {
                assert(ss[j + 1] == starts@[j + 1] as int);
            }
            assert(pv[j as int].0 == ps@[j as int].name@);
            assert(raw@.subrange(ta as int, tb as int) == block_text(raw@, ss, j as int));
        }
        let ghost b0 = blocks_view(blocks@);
        let nm = ps[j].name.clone();
        let tx = string_of_range(&raw, ta, tb);
        let ghost e = (nm@, tx@);
        assert(e == (pv[j as int].0, block_text(raw@, ss, j as int)));
        blocks.push(DeclBlock { name: nm, text: tx });
        assert(blocks_view(blocks@) =~= b0.push(e));
        assert(b0.push(e) =~= Seq::new((j + 1) as nat, |k: int| (pv[k].0, block_text(raw@, ss, k))));
        j = j + 1;
    }
    (preamble, blocks)
}


// ===========================================================================
// Laws
// ===========================================================================

/// Sanitizing keeps every position: the result is as long as the input and
/// holds, at each position, the input character or a space. It creates no
/// newline, and drops one only right after a backslash (an escaped line
/// break inside a string literal), so line numbers found in the sanitized
/// text are those of the raw source everywhere else.
pub proof fn lemma_sanitize_keeps_positions(s: Seq<char>)
    ensures
        sanitize_spec(s).len() == s.len(),
        forall|j: int| 0 <= j < s.len() ==> #[trigger] sanitize_spec(s)[j] == s[j] || sanitize_spec(s)[j] == ' ',
        forall|j: int| 0 <= j < s.len() && #[trigger] sanitize_spec(s)[j] == '\n' ==> s[j] == '\n',
        forall|j: int| 0 <= j < s.len() && s[j] == '\n' && #[trigger] sanitize_spec(s)[j] != '\n' ==> j > 0 && s[j - 1] == '\\',
{
    lemma_sanitize_from_positions(s, 0, false, 0, false);
}

proof fn lemma_sanitize_from_positions(s: Seq<char>, i: int, in_line: bool, depth: nat, in_str: bool)
    requires
        0 <= i <= s.len(),
    ensures
        sanitize_from(s, i, in_line, depth, in_str).len() == s.len() - i,
        forall|j: int| 0 <= j < s.len() - i ==> #[trigger] sanitize_from(s, i, in_line, depth, in_str)[j] == s[i + j]
            || sanitize_from(s, i, in_line, depth, in_str)[j] == ' ',
        forall|j: int| 0 <= j < s.len() - i && #[trigger] sanitize_from(s, i, in_line, depth, in_str)[j] == '\n' ==> s[i + j] == '\n',
        forall|j: int| 0 <= j < s.len() - i && s[i + j] == '\n' && #[trigger] sanitize_from(s, i, in_line, depth, in_str)[j] != '\n'
            ==> i + j > 0 && s[i + j - 1] == '\\',
    decreases s.len() - i,
{
    if i < s.len() {
        let c = s[i];
        let nx: Option<char> = if i + 1 < s.len() { Some(s[i + 1]) } else { None };
        let out = sanitize_from(s, i, in_line, depth, in_str);
        let two = !in_line && (
            (depth > 0 && ((c == '/' && nx == Some('-')) || (c == '-' && nx == Some('/'))))
            || (depth == 0 && in_str && c == '\\' && nx is Some)
            || (depth == 0 && !in_str && ((c == '-' && nx == Some('-')) || (c == '/' && nx == Some('-')))));
        if two {
            let (nl, nd, ns): (bool, nat, bool) = if depth > 0 {
                (false, if c == '/' { depth + 1 } else { (depth - 1) as nat }, in_str)
            } else if in_str {
                (false, 0, true)
            } else if c == '-' {
                (true, 0, false)
            } else {
                (false, 1, false)
            };
            lemma_sanitize_from_positions(s, i + 2, nl, nd, ns);
            let rest = sanitize_from(s, i + 2, nl, nd, ns);
            assert(out == seq![' ', ' '] + rest);
            assert forall|j: int| 0 <= j < s.len() - i implies #[trigger] out[j] == s[i + j] || out[j] == ' ' by {
                if j >= 2 {
                    assert(out[j] == rest[j - 2]);
                }
            }
            assert forall|j: int| 0 <= j < s.len() - i && #[trigger] out[j] == '\n' implies s[i + j] == '\n' by {
                if j >= 2 {
                    assert(out[j] == rest[j - 2]);
                }
            }
            assert forall|j: int| 0 <= j < s.len() - i && s[i + j] == '\n' && #[trigger] out[j] != '\n' implies i + j > 0
                && s[i + j - 1] == '\\' by {
                if j >= 2 {
                    assert(out[j] == rest[j - 2]);
                    assert(s[(i + 2) + (j - 2)] == s[i + j]);
                }
            }
        } else {
            let (nl, nd, ns): (bool, nat, bool) = if in_line {
                (c != '\n', depth, in_str)
            } else if depth > 0 {
                (false, depth, in_str)
            } else if in_str {
                (false, 0, c != '"')
            } else {
                (false, 0, c == '"')
            };
            lemma_sanitize_from_positions(s, i + 1, nl, nd, ns);
            let rest = sanitize_from(s, i + 1, nl, nd, ns);
            assert(out == seq![out[0]] + rest);
            assert forall|j: int| 0 <= j < s.len() - i implies #[trigger] out[j] == s[i + j] || out[j] == ' ' by {
                if j > 0 {
                    assert(out[j] == rest[j - 1]);
                }
            }
            assert forall|j: int| 0 <= j < s.len() - i && #[trigger] out[j] == '\n' implies s[i + j] == '\n' by {
                if j > 0 {
                    assert(out[j] == rest[j - 1]);
                }
            }
            assert forall|j: int| 0 <= j < s.len() - i && s[i + j] == '\n' && #[trigger] out[j] != '\n' implies i + j > 0
                && s[i + j - 1] == '\\' by {
                if j > 0 {
                    assert(out[j] == rest[j - 1]);
                    assert(s[(i + 1) + (j - 1)] == s[i + j]);
                }
            }
        }
    }
}

/// Findings in (line, rule) order: no finding orders before an earlier one.
pub open spec fn hatches_sorted(s: Seq<SHatch>) -> bool {
    forall|i: int, j: int| 0 <= i < j < s.len() ==> !hatch_lt(#[trigger] s[j], #[trigger] s[i])
}

proof fn lemma_hatch_le_trans(a: SHatch, b: SHatch, c: SHatch)
    requires
        !hatch_lt(a, b),
        !hatch_lt(b, c),
    ensures
        !hatch_lt(a, c),
{
    if hatch_lt(a, c) {
        if a.line == b.line && b.line == c.line {
            lemma_lt_total(a.rule, b.rule);
            lemma_lt_total(b.rule, c.rule);
            if a.rule == b.rule {
            } else if b.rule == c.rule {
            } else {
                lemma_lt_transitive(a.rule, c.rule, b.rule);
            }
        }
    }
}

proof fn lemma_hatch_lt_asym(a: SHatch, b: SHatch)
    requires
        hatch_lt(a, b),
    ensures
        !hatch_lt(b, a),
{
    if hatch_lt(b, a) && a.line == b.line {
        lemma_lt_transitive(a.rule, b.rule, a.rule);
        lemma_lt_irreflexive(a.rule);
    }
}

proof fn lemma_insert_hatch_sorted(s: Seq<SHatch>, x: SHatch)
    requires
        hatches_sorted(s),
    ensures
        hatches_sorted(insert_hatch_spec(s, x)),
        insert_hatch_spec(s, x).len() == s.len() + 1,
        forall|k: int| 0 <= k < insert_hatch_spec(s, x).len() ==> #[trigger] insert_hatch_spec(s, x)[k] == x
            || s.contains(insert_hatch_spec(s, x)[k]),
    decreases s.len(),
{
    if s.len() == 0 {
    } else if hatch_lt(x, s.last()) {
        let t = s.drop_last();
        assert(hatches_sorted(t)) by {
            assert forall|i: int, j: int| 0 <= i < j < t.len() implies !hatch_lt(#[trigger] t[j], #[trigger] t[i]) by {
                assert(t[i] == s[i] && t[j] == s[j]);
            }
        }
        lemma_insert_hatch_sorted(t, x);
        let r = insert_hatch_spec(t, x);
        let last = s.last();
        assert forall|k: int| 0 <= k < r.len() implies !hatch_lt(last, #[trigger] r[k]) by {
            if r[k] == x {
                lemma_hatch_lt_asym(x, last);
            } else {
                let m = choose|m: int| 0 <= m < t.len() && t[m] == r[k];
                assert(t[m] == s[m]);
                assert(!hatch_lt(s[s.len() - 1], s[m]));
            }
        }
        let out = r.push(last);
        assert forall|i: int, j: int| 0 <= i < j < out.len() implies !hatch_lt(#[trigger] out[j], #[trigger] out[i]) by {
            if j < r.len() {
                assert(out[j] == r[j] && out[i] == r[i]);
            } else {
                assert(out[j] == last);
                assert(out[i] == r[i]);
            }
        }
        assert forall|k: int| 0 <= k < out.len() implies #[trigger] out[k] == x || s.contains(out[k]) by {
            if k < r.len() {
                assert(out[k] == r[k]);
                if r[k] != x {
                    let m = choose|m: int| 0 <= m < t.len() && t[m] == r[k];
                    assert(s[m] == t[m]);
                }
            } else {
                assert(out[k] == s[s.len() - 1]);
            }
        }
    } else {
        let out = s.push(x);
        assert forall|i: int, j: int| 0 <= i < j < out.len() implies !hatch_lt(#[trigger] out[j], #[trigger] out[i]) by {
            if j < s.len() {
                assert(out[j] == s[j] && out[i] == s[i]);
            } else {
                assert(out[j] == x);
                assert(out[i] == s[i]);
                if i < s.len() - 1 {
                    assert(!hatch_lt(s[s.len() - 1], s[i]));
                    lemma_hatch_le_trans(x, s[s.len() - 1], s[i]);
                }
            }
        }
        assert forall|k: int| 0 <= k < out.len() implies #[trigger] out[k] == x || s.contains(out[k]) by {
            if k < s.len() {
                assert(out[k] == s[k]);
            }
        }
    }
}

/// Escape-hatch findings come out ordered by line and then rule.
pub proof fn lemma_scan_sorted(code: Seq<char>)
    ensures
        hatches_sorted(scan_spec(code)),
        hatches_sorted(scan_positions_spec(code)),
{
    lemma_sort_hatches_sorted(all_hatches(sanitize_spec(code), 6));
    lemma_sort_hatches_sorted(all_hatches(code, 6));
}

proof fn lemma_sort_hatches_sorted(s: Seq<SHatch>)
    ensures
        hatches_sorted(sort_hatches(s)),
    decreases s.len(),
{
    if s.len() > 0 {
        lemma_sort_hatches_sorted(s.drop_last());
        lemma_insert_hatch_sorted(sort_hatches(s.drop_last()), s.last());
    }
}


/// How many of `hs` are on `line` with `rule`.
pub open spec fn count_key(hs: Seq<SHatch>, line: nat, rule: Seq<char>) -> nat
    decreases hs.len(),
{
    if hs.len() == 0 {
        0
    } else {
        (if hs[0].line == line && hs[0].rule == rule { 1nat } else { 0nat }) + count_key(hs.drop_first(), line, rule)
    }
}

proof fn lemma_count_remove(hs: Seq<SHatch>, j: int, line: nat, rule: Seq<char>)
    requires
        0 <= j < hs.len(),
    ensures
        count_key(hs.remove(j), line, rule) + (if hs[j].line == line && hs[j].rule == rule { 1nat } else { 0nat })
            == count_key(hs, line, rule),
    decreases j,
{
    if j == 0 {
        assert(hs.remove(0) =~= hs.drop_first());
    } else {
        lemma_count_remove(hs.drop_first(), j - 1, line, rule);
        assert(hs.remove(j) =~= seq![hs[0]] + hs.drop_first().remove(j - 1));
        assert((seq![hs[0]] + hs.drop_first().remove(j - 1)).drop_first() =~= hs.drop_first().remove(j - 1));
    }
}

proof fn lemma_first_same_none(active: Seq<SHatch>, h: SHatch)
    requires
        first_same(active, h) is None,
    ensures
        count_key(active, h.line, h.rule) == 0,
    decreases active.len(),
{
    if active.len() > 0 {
        lemma_first_same_none(active.drop_first(), h);
    }
}

proof fn lemma_unmatched_counts(raw: Seq<SHatch>, active: Seq<SHatch>, line: nat, rule: Seq<char>)
    ensures
        count_key(unmatched(raw, active), line, rule) == if count_key(raw, line, rule) >= count_key(active, line, rule) {
            (count_key(raw, line, rule) - count_key(active, line, rule)) as nat
        } else {
            0nat
        },
    decreases raw.len(),
{
    if raw.len() > 0 {
        let h = raw[0];
        lemma_first_same(active, h);
        match first_same(active, h) {
            Some(j) => {
                lemma_count_remove(active, j, line, rule);
                lemma_unmatched_counts(raw.drop_first(), active.remove(j), line, rule);
            },
            None => {
                lemma_first_same_none(active, h);
                lemma_unmatched_counts(raw.drop_first(), active, line, rule);
                let rest = unmatched(raw.drop_first(), active);
                assert((seq![h] + rest).drop_first() =~= rest);
            },
        }
    }
}

/// The escape hatches reported as only commented are the findings of the
/// raw scan less those of the code-only scan, counted by line and rule: for
/// every line and rule, as many as the raw scan has beyond the code-only one.
pub proof fn lemma_commented_is_raw_less_active(code: Seq<char>, line: nat, rule: Seq<char>)
    ensures
        count_key(commented_spec(code), line, rule) == if count_key(
            scan_policy_spec(code, CommentPolicy::CodeAndComments),
            line,
            rule,
        ) >= count_key(scan_policy_spec(code, CommentPolicy::CodeOnly), line, rule) {
            (count_key(scan_policy_spec(code, CommentPolicy::CodeAndComments), line, rule) - count_key(
                scan_policy_spec(code, CommentPolicy::CodeOnly),
                line,
                rule,
            )) as nat
        } else {
            0nat
        },
{
    lemma_unmatched_counts(scan_positions_spec(code), scan_spec(code), line, rule);
}

/// Whether `a` is `b` with some findings deleted, the rest in `b`'s order.
pub open spec fn is_sub_hatches(a: Seq<SHatch>, b: Seq<SHatch>) -> bool
    decreases b.len(),
{
    if a.len() == 0 {
        true
    } else if b.len() == 0 {
        false
    } else {
        (a[0] == b[0] && is_sub_hatches(a.drop_first(), b.drop_first())) || is_sub_hatches(a, b.drop_first())
    }
}

proof fn lemma_unmatched_in_order(raw: Seq<SHatch>, active: Seq<SHatch>)
    ensures
        is_sub_hatches(unmatched(raw, active), raw),
    decreases raw.len(),
{
    if raw.len() > 0 {
        match first_same(active, raw[0]) {
            Some(j) => {
                lemma_unmatched_in_order(raw.drop_first(), active.remove(j));
            },
            None => {
                lemma_unmatched_in_order(raw.drop_first(), active);
                let rest = unmatched(raw.drop_first(), active);
                assert((seq![raw[0]] + rest).drop_first() =~= rest);
            },
        }
    }
}

/// The commented-only findings keep the raw scan's order: they are the raw
/// findings with some removed (which ones, by line and rule, is
/// [`lemma_commented_is_raw_less_active`]).
pub proof fn lemma_commented_keeps_raw_order(code: Seq<char>)
    ensures
        is_sub_hatches(commented_spec(code), scan_policy_spec(code, CommentPolicy::CodeAndComments)),
{
    lemma_unmatched_in_order(scan_positions_spec(code), scan_spec(code));
}
} // verus!
