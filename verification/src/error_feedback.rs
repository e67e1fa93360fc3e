//! Structured checker-error feedback.
//!
//! A failed check is rendered positionally against the submitted source: a
//! few lines of preceding context, the offending region wrapped in explicit
//! `<error>` … `</error>` delimiters, a trailing line, then the message.
//!
//! Everything here is a pure function of its inputs. Diagnostic parsing
//! dispatches on the [`FormalSystem`], since the checkers' formats differ:
//!
//! | system    | shape                                                     |
//! |-----------|-----------------------------------------------------------|
//! | Lean      | `Generated.lean:12:5: error: unknown identifier 'foo'`     |
//! | Rocq      | `File "F.v", line 12, characters 4-9:` + `Error: …`        |
//! | Isabelle  | `*** Undefined fact: "foo"` + `*** At command … (line 12 …)`|
//! | Agda      | `Generated.agda:12,5-9: Not in scope: foo`                 |
//! | Metamath  | `?Error on line 12 of file "x.mm": …`                      |
//! | Candle    | (no stable machine format; generic fallback)               |
//!
//! Output that cannot be parsed degrades to a bounded raw passthrough, so the
//! checker's own words are never dropped.
use vstd::prelude::*;
use crate::declaration_lookup::opt_view;
use crate::formal::{system_tag, FormalSystem};
use crate::text::{
    after_marker_at, after_marker_spec, ascii_lower, ascii_lower_range, chars_eq, chars_of,
    class_pred, contains_at, contains_spec, find_class, find_sub, find_sub_at, first_where,
    last_index_of, lemma_line_window, lemma_line_windows_len, line_windows_of, leading_usize_at, leading_usize_spec, lemma_first_where, lines_spec, line_windows,
    ltrim, parse_usize_at, parse_usize_spec, push_range, rfind_char, rskip_class, rtrim,
    skip_class, starts_with_at, string_of, string_of_range, trim, trim_class, white_pred,
    word_list, words_view, decimal, push_decimal, push_char, owned, extend_chars, lemma_decimal_nonempty,
    CharClass,
};

verus! {

/// The marker put where the middle of an over-long region is elided.
pub const TRUNCATION_MARKER: &'static str = "... --[Truncated]-- ...";

/// Opening delimiter around the offending region.
pub const ERROR_OPEN: &'static str = "<error>";

/// Closing delimiter around the offending region.
pub const ERROR_CLOSE: &'static str = "</error>";

/// Lines kept at most when degrading to raw passthrough.
pub const RAW_PASSTHROUGH_LINES: usize = 40;

/// Rendering knobs.
#[derive(Debug, Clone, Copy, PartialEq, Eq)]
pub struct FeedbackConfig {
    /// Diagnostics rendered in full; the rest are counted and omitted.
    pub max_errors: usize,
    /// Source lines of context shown before the offending region.
    pub context_lines_before: usize,
    /// Source lines of context shown after the offending region.
    pub context_lines_after: usize,
    /// A region of more lines than this has its middle elided.
    pub elide_threshold: usize,
}

impl Default for FeedbackConfig {
    /// Eight diagnostics, four lines before, one after, elide past six.
    fn default() -> (r: Self)
        ensures
            r.max_errors == 8,
            r.context_lines_before == 4,
            r.context_lines_after == 1,
            r.elide_threshold == 6,
    {
        FeedbackConfig { max_errors: 8, context_lines_before: 4, context_lines_after: 1, elide_threshold: 6 }
    }
}

/// Diagnostic severity as the checker reports it.
#[derive(Debug, Clone, Copy, PartialEq, Eq, Structural)]
pub enum Severity {
    Error,
    Warning,
    Info,
}

/// The lowercase name of a severity.
pub open spec fn severity_tag(s: Severity) -> Seq<char> {
    match s {
        Severity::Error => "error"@,
        Severity::Warning => "warning"@,
        Severity::Info => "info"@,
    }
}

impl Severity {
    /// The lowercase name of the severity.
    pub fn as_str(self) -> (r: &'static str)
        ensures
            r@ == severity_tag(self),
    {
        match self {
            Severity::Error => "error",
            Severity::Warning => "warning",
            Severity::Info => "info",
        }
    }
}

/// One parsed checker diagnostic. Positions are 1-based; `None` means the
/// checker did not report that coordinate.
#[derive(Debug, Clone, PartialEq, Eq)]
pub struct Diagnostic {
    /// The system whose format produced this diagnostic.
    pub system: FormalSystem,
    pub severity: Severity,
    /// 1-based start line in the submitted source.
    pub line: Option<usize>,
    /// 1-based end line; `None` means the region is the single `line`.
    pub end_line: Option<usize>,
    /// 1-based inclusive start column.
    pub col_start: Option<usize>,
    /// 1-based exclusive end column.
    pub col_end: Option<usize>,
    /// The checker's message, continuation lines joined.
    pub message: String,
    /// The proof state at the error position. Parsing never fills it; a
    /// caller holding a live session may, and rendering then shows it.
    pub goal_state_slot: Option<String>,
}

/// The model of a [`Diagnostic`].
pub ghost struct SDiag {
    pub system: FormalSystem,
    pub severity: Severity,
    pub line: Option<usize>,
    pub end_line: Option<usize>,
    pub col_start: Option<usize>,
    pub col_end: Option<usize>,
    pub message: Seq<char>,
    pub goal: Option<Seq<char>>,
}

impl View for Diagnostic {
    type V = SDiag;

    open spec fn view(&self) -> SDiag {
        SDiag {
            system: self.system,
            severity: self.severity,
            line: self.line,
            end_line: self.end_line,
            col_start: self.col_start,
            col_end: self.col_end,
            message: self.message@,
            goal: opt_view(self.goal_state_slot),
        }
    }
}

/// The models of a sequence of diagnostics.
pub open spec fn diags_view(ds: Seq<Diagnostic>) -> Seq<SDiag> {
    ds.map_values(|d: Diagnostic| d@)
}

/// A diagnostic with a message and no position.
pub open spec fn bare_spec(system: FormalSystem, severity: Severity, message: Seq<char>) -> SDiag {
    SDiag {
        system,
        severity,
        line: None,
        end_line: None,
        col_start: None,
        col_end: None,
        message,
        goal: None,
    }
}

/// A positioned diagnostic with no goal state.
pub open spec fn diag_spec(
    system: FormalSystem,
    severity: Severity,
    line: Option<usize>,
    end_line: Option<usize>,
    col_start: Option<usize>,
    col_end: Option<usize>,
    message: Seq<char>,
) -> SDiag {
    SDiag { system, severity, line, end_line, col_start, col_end, message, goal: None }
}

/// `ds` with `line` (its trailing whitespace dropped) appended to the last
/// diagnostic's message on a new line; `ds` itself when it is empty.
pub open spec fn append_cont(ds: Seq<SDiag>, line: Seq<char>) -> Seq<SDiag> {
    if ds.len() == 0 {
        ds
    } else {
        let d = ds.last();
        ds.drop_last().push(
            SDiag {
                system: d.system,
                severity: d.severity,
                line: d.line,
                end_line: d.end_line,
                col_start: d.col_start,
                col_end: d.col_end,
                message: d.message + seq!['\n'] + rtrim(line, white_pred()),
                goal: d.goal,
            },
        )
    }
}

/// The severity a word names, ignoring surrounding whitespace and ASCII case.
pub open spec fn severity_from_spec(word: Seq<char>) -> Option<Severity> {
    let t = trim(word, white_pred()).map_values(|c: char| ascii_lower(c));
    if t == "error"@ {
        Some(Severity::Error)
    } else if t == "warning"@ || t == "warn"@ {
        Some(Severity::Warning)
    } else if t == "info"@ || t == "information"@ || t == "note"@ {
        Some(Severity::Info)
    } else {
        None
    }
}

/// A `"12"` or `"5-9"` field as (start, end).
pub open spec fn parse_span_spec(field: Seq<char>) -> (Option<usize>, Option<usize>) {
    let t = trim(field, white_pred());
    match first_where(t, class_pred(CharClass::Only('-'))) {
        Some(k) => (
            parse_usize_spec(trim(t.take(k), white_pred())),
            parse_usize_spec(trim(t.skip(k + 1), white_pred())),
        ),
        None => (parse_usize_spec(t), None),
    }
}

/// Whether `text` equals `word`.
fn window_is(v: &Vec<char>, lo: usize, hi: usize, word: &str) -> (r: bool)
    requires
        lo <= hi <= v@.len(),
    ensures
        r == (v@.subrange(lo as int, hi as int) == word@),
{
    let w = chars_of(word);
    if w.len() != hi - lo {
        return false;
    }
    crate::text::window_eq(v, lo, &w)
}

/// [`severity_from_spec`] of the window `v[lo..hi]`.
fn severity_from(v: &Vec<char>, lo: usize, hi: usize) -> (r: Option<Severity>)
    requires
        lo <= hi <= v@.len(),
    ensures
        r == severity_from_spec(v@.subrange(lo as int, hi as int)),
{
    let (a, b) = trim_class(v, lo, hi, CharClass::White);
    let low = ascii_lower_range(v, a, b);
    let n = low.len();
    proof {
        assert(class_pred(CharClass::White) == white_pred());
        assert(low@.subrange(0, n as int) == low@);
    }
    if window_is(&low, 0, n, "error") {
        Some(Severity::Error)
    } else if window_is(&low, 0, n, "warning") || window_is(&low, 0, n, "warn") {
        Some(Severity::Warning)
    } else if window_is(&low, 0, n, "info") || window_is(&low, 0, n, "information") || window_is(&low, 0, n, "note") {
        Some(Severity::Info)
    } else {
        None
    }
}

/// [`parse_span_spec`] of the window `v[lo..hi]`.
fn parse_span(v: &Vec<char>, lo: usize, hi: usize) -> (r: (Option<usize>, Option<usize>))
    requires
        lo <= hi <= v@.len(),
    ensures
        r == parse_span_spec(v@.subrange(lo as int, hi as int)),
{
    let (a, b) = trim_class(v, lo, hi, CharClass::White);
    let k = find_class(v, a, b, CharClass::Only('-'));
    proof {
        assert(class_pred(CharClass::White) == white_pred());
    }
    if k < b {
        let (x0, x1) = trim_class(v, a, k, CharClass::White);
        let (y0, y1) = trim_class(v, k + 1, b, CharClass::White);
        proof {
            let t = v@.subrange(a as int, b as int);
            assert(t.take(k - a) == v@.subrange(a as int, k as int));
            assert(t.skip(k - a + 1) == v@.subrange(k + 1, b as int));
        }
        (parse_usize_at(v, x0, x1), parse_usize_at(v, y0, y1))
    } else {
        (parse_usize_at(v, a, b), None)
    }
}

/// Append a continuation line to the last diagnostic's message.
fn append_continuation(out: &mut Vec<Diagnostic>, v: &Vec<char>, lo: usize, hi: usize)
    requires
        lo <= hi <= v@.len(),
    ensures
        diags_view(final(out)@) == append_cont(diags_view(old(out)@), v@.subrange(lo as int, hi as int)),
{
    if out.len() == 0 {
        return;
    }
    let ghost before = out@;
    let mut d = out.pop().unwrap();
    let ghost d0 = d@;
    assert(d0 == diags_view(before).last());
    let e = rskip_class(v, lo, hi, CharClass::White);
    proof {
        assert(class_pred(CharClass::White) == white_pred());
    }
    crate::text::push_char(&mut d.message, '\n');
    push_range(&mut d.message, v, lo, e);
    assert(d@.message == d0.message + seq!['\n'] + rtrim(v@.subrange(lo as int, hi as int), white_pred()));
    out.push(d);
    proof {
        assert(diags_view(before).drop_last() =~= diags_view(before.drop_last()));
        assert(diags_view(out@) =~= diags_view(before.drop_last()).push(d@));
    }
}


// ---------------------------------------------------------------------------
// Lean
// ---------------------------------------------------------------------------

/// The Lean header markers, tried in this order.
pub open spec fn lean_markers() -> Seq<Seq<char>> {
    seq![": error:"@, ": warning:"@, ": info:"@]
}

/// The position and index of the first of `ms[j..]` (in list order) that
/// occurs in `l`.
pub open spec fn first_marker_from(l: Seq<char>, ms: Seq<Seq<char>>, j: int) -> Option<(int, int)>
    decreases ms.len() - j,
{
    if j < 0 || j >= ms.len() {
        None
    } else {
        match find_sub(l, ms[j]) {
            Some(p) => Some((p, j)),
            None => first_marker_from(l, ms, j + 1),
        }
    }
}

/// The line and raw (0-based) column span of a Lean `path:line:col` head:
/// the last `:`-field is the column span, the one before it the line.
pub open spec fn lean_position(head: Seq<char>) -> (Option<usize>, Option<usize>, Option<usize>) {
    match last_index_of(head, ':') {
        Some(k) => {
            let (c0, c1) = parse_span_spec(head.skip(k + 1));
            let rest = head.take(k);
            let l = match last_index_of(rest, ':') {
                Some(j) => parse_usize_spec(trim(rest.skip(j + 1), white_pred())),
                None => None,
            };
            (l, c0, c1)
        },
        None => (None, None, None),
    }
}

/// A 0-based column made 1-based.
pub open spec fn one_based(c: Option<usize>) -> Option<usize> {
    match c {
        Some(c) => Some((c + 1) as usize),
        None => None,
    }
}

/// The diagnostic a Lean header line opens: position from the head before
/// the marker, severity from the marker, message after it.
pub open spec fn lean_header(l: Seq<char>) -> Option<SDiag> {
    match first_marker_from(l, lean_markers(), 0) {
        Some((p, j)) => {
            let m = lean_markers()[j];
            let (ln, c0, c1) = lean_position(l.take(p));
            let sev = match severity_from_spec(trim(m, class_pred(CharClass::Only(':')))) {
                Some(s) => s,
                None => Severity::Error,
            };
            Some(diag_spec(
                FormalSystem::Lean,
                sev,
                ln,
                None,
                one_based(c0),
                one_based(c1),
                trim(l.skip(p + m.len()), white_pred()),
            ))
        },
        None => None,
    }
}

/// Whether the columns of a Lean header line can be made 1-based in a
/// `usize` (a column of `usize::MAX` cannot).
pub open spec fn lean_line_fits(l: Seq<char>) -> bool {
    match first_marker_from(l, lean_markers(), 0) {
        Some((p, j)) => {
            let (_, c0, c1) = lean_position(l.take(p));
            c0 != Some(usize::MAX) && c1 != Some(usize::MAX)
        },
        None => true,
    }
}

/// Whether every Lean header line of `raw` fits (see [`lean_line_fits`]).
pub open spec fn lean_fits(raw: Seq<char>) -> bool {
    forall|i: int| 0 <= i < lines_spec(raw).len() ==> lean_line_fits(#[trigger] lines_spec(raw)[i])
}

/// Whether `s` starts with `p`.
pub open spec fn has_prefix(s: Seq<char>, p: Seq<char>) -> bool {
    p.len() <= s.len() && s.take(p.len() as int) == p
}

/// One line of Lean output: a header opens a diagnostic; a header-less
/// `error: …` opens a position-less one; any other non-blank line continues
/// the last message.
pub open spec fn lean_step(ds: Seq<SDiag>, l: Seq<char>) -> Seq<SDiag> {
    match lean_header(l) {
        Some(d) => ds.push(d),
        None => {
            let t = ltrim(l, white_pred());
            if has_prefix(t, "error:"@) {
                ds.push(bare_spec(FormalSystem::Lean, Severity::Error, trim(t.skip("error:"@.len() as int), white_pred())))
            } else if trim(l, white_pred()).len() > 0 {
                append_cont(ds, l)
            } else {
                ds
            }
        },
    }
}

/// The diagnostics of the first `n` lines of Lean output.
pub open spec fn lean_upto(ls: Seq<Seq<char>>, n: int) -> Seq<SDiag>
    decreases n,
{
    if n <= 0 { Seq::empty() } else { lean_step(lean_upto(ls, n - 1), ls[n - 1]) }
}

/// The diagnostics of Lean output.
pub open spec fn parse_lean_spec(raw: Seq<char>) -> Seq<SDiag> {
    lean_upto(lines_spec(raw), lines_spec(raw).len() as int)
}

/// [`first_marker_from`] on the window `v[lo..hi]`, from marker 0; the
/// position is absolute.
fn first_marker_at(v: &Vec<char>, lo: usize, hi: usize, ms: &Vec<Vec<char>>) -> (r: Option<(usize, usize)>)
    requires
        lo <= hi <= v@.len(),
    ensures
        match r {
            Some((p, j)) => lo <= p <= hi && j < ms@.len() && p + ms@[j as int]@.len() <= hi
                && first_marker_from(v@.subrange(lo as int, hi as int), words_view(ms@), 0) == Some(((p - lo) as int, j as int)),
            None => first_marker_from(v@.subrange(lo as int, hi as int), words_view(ms@), 0) is None,
        },
{
    let ghost l = v@.subrange(lo as int, hi as int);
    let mut j: usize = 0;
    while j < ms.len()
        invariant
            j <= ms@.len(),
            lo <= hi <= v@.len(),
            l == v@.subrange(lo as int, hi as int),
            first_marker_from(l, words_view(ms@), 0) == first_marker_from(l, words_view(ms@), j as int),
        decreases ms@.len() - j,
    {
        assert(words_view(ms@)[j as int] == ms@[j as int]@);
        match find_sub_at(v, lo, hi, &ms[j]) {
            Some(k) => {
                return Some((lo + k, j));
            },
            None => {},
        }
        j = j + 1;
    }
    None
}

/// [`lean_position`] of the head window `v[lo..hi]`.
fn lean_position_at(v: &Vec<char>, lo: usize, hi: usize) -> (r: (Option<usize>, Option<usize>, Option<usize>))
    requires
        lo <= hi <= v@.len(),
    ensures
        r == lean_position(v@.subrange(lo as int, hi as int)),
{
    let ghost head = v@.subrange(lo as int, hi as int);
    match rfind_char(v, lo, hi, ':') {
        Some(k) => {
            let (c0, c1) = parse_span(v, lo + k + 1, hi);
            let l = match rfind_char(v, lo, lo + k, ':') {
                Some(j) => {
                    let (x, y) = trim_class(v, lo + j + 1, lo + k, CharClass::White);
                    proof {
                        assert(class_pred(CharClass::White) == white_pred());
                        assert(head.take(k as int).skip(j + 1) == v@.subrange(lo + j + 1, lo + k));
                    }
                    parse_usize_at(v, x, y)
                },
                None => None,
            };
            proof {
                assert(head.skip(k + 1) == v@.subrange(lo + k + 1, hi as int));
                assert(head.take(k as int) == v@.subrange(lo as int, lo + k));
            }
            (l, c0, c1)
        },
        None => (None, None, None),
    }
}

/// A diagnostic built from its parts.
fn make_diag(
    system: FormalSystem,
    severity: Severity,
    line: Option<usize>,
    end_line: Option<usize>,
    col_start: Option<usize>,
    col_end: Option<usize>,
    message: String,
) -> (r: Diagnostic)
    ensures
        r@ == diag_spec(system, severity, line, end_line, col_start, col_end, message@),
{
    Diagnostic { system, severity, line, end_line, col_start, col_end, message, goal_state_slot: None }
}

/// [`one_based`], for a column below `usize::MAX`.
fn plus_one(c: Option<usize>) -> (r: Option<usize>)
    requires
        c != Some(usize::MAX),
    ensures
        r == one_based(c),
{
    match c {
        Some(c) => Some(c + 1),
        None => None,
    }
}

/// Parse Lean output (`path:line:col: error: …` headers, header-less
/// `error: …` lines, continuation lines). Lean columns are 0-based and are
/// stored 1-based.
fn parse_lean(raw: &Vec<char>) -> (r: Vec<Diagnostic>)
    requires
        lean_fits(raw@),
    ensures
        diags_view(r@) == parse_lean_spec(raw@),
{
    let ws = line_windows(raw);
    let ghost ls = lines_spec(raw@);
    let markers = word_list(&[": error:", ": warning:", ": info:"]);
    assert(words_view(markers@) =~= lean_markers());
    let mut out: Vec<Diagnostic> = Vec::new();
    let mut i: usize = 0;
    while i < ws.len()
        invariant
            ws@.len() == ls.len(),
            line_windows_of(raw@, ws@),
            ls == lines_spec(raw@),
            lean_fits(raw@),
            words_view(markers@) == lean_markers(),
            i <= ws@.len(),
            diags_view(out@) == lean_upto(ls, i as int),
        decreases ws@.len() - i,
    {
        let (a, b) = ws[i];
        proof {
            lemma_line_window(raw@, ws@, i as int);
        }
        let ghost l = ls[i as int];
        assert(lean_line_fits(l));
        let ghost before = diags_view(out@);
        match first_marker_at(raw, a, b, &markers) {
            Some((p, j)) => {
                let m = &markers[j];
                let (ln, c0, c1) = lean_position_at(raw, a, p);
                let (ma, mb) = trim_class(m, 0, m.len(), CharClass::Only(':'));
                let sev = match severity_from(m, ma, mb) {
                    Some(s) => s,
                    None => Severity::Error,
                };
                let (x, y) = trim_class(raw, p + m.len(), b, CharClass::White);
                proof {
                    assert(m@.subrange(0, m@.len() as int) == m@);
                    assert(words_view(markers@)[j as int] == m@);
                    assert(class_pred(CharClass::White) == white_pred());
                    assert(l.take(p - a) == raw@.subrange(a as int, p as int));
                    assert(l.skip(p - a + m@.len()) == raw@.subrange(p + m@.len(), b as int));
                }
                let d = make_diag(FormalSystem::Lean, sev, ln, None, plus_one(c0), plus_one(c1), string_of_range(raw, x, y));
                out.push(d);
                assert(diags_view(out@) == before.push(d@));
            },
            None => {
                let t = skip_class(raw, a, b, CharClass::White);
                let pre = chars_of("error:");
                proof {
                    reveal_strlit("error:");
                    assert(class_pred(CharClass::White) == white_pred());
                }
                if starts_with_at(raw, t, b, &pre) {
                    let (x, y) = trim_class(raw, t + 6, b, CharClass::White);
                    proof {
                        assert(raw@.subrange(t as int, b as int).skip(6) == raw@.subrange(t + 6, b as int));
                    }
                    let d = make_diag(FormalSystem::Lean, Severity::Error, None, None, None, None, string_of_range(raw, x, y));
                    out.push(d);
                    assert(diags_view(out@) == before.push(d@));
                } else {
                    let (x, y) = trim_class(raw, a, b, CharClass::White);
                    if x < y {
                        append_continuation(&mut out, raw, a, b);
                    }
                }
            },
        }
        i = i + 1;
    }
    out
}


/// Whether the window `v[lo..hi]` starts with `lit`.
fn starts_with_lit(v: &Vec<char>, lo: usize, hi: usize, lit: &str) -> (r: bool)
    requires
        lo <= hi <= v@.len(),
    ensures
        r == has_prefix(v@.subrange(lo as int, hi as int), lit@),
{
    let w = chars_of(lit);
    starts_with_at(v, lo, hi, &w)
}

/// Whether `lit` occurs in the window `v[lo..hi]`.
fn contains_lit(v: &Vec<char>, lo: usize, hi: usize, lit: &str) -> (r: bool)
    requires
        lo <= hi <= v@.len(),
    ensures
        r == contains_spec(v@.subrange(lo as int, hi as int), lit@),
{
    let w = chars_of(lit);
    contains_at(v, lo, hi, &w)
}

/// The number after the first `marker` in the window, read as
/// [`leading_usize_spec`].
pub open spec fn number_after(s: Seq<char>, marker: Seq<char>) -> Option<usize> {
    match after_marker_spec(s, marker) {
        Some(x) => leading_usize_spec(x),
        None => None,
    }
}

/// [`number_after`] of the window `v[lo..hi]`.
fn number_after_at(v: &Vec<char>, lo: usize, hi: usize, marker: &str) -> (r: Option<usize>)
    requires
        lo <= hi <= v@.len(),
    ensures
        r == number_after(v@.subrange(lo as int, hi as int), marker@),
{
    match after_marker_at(v, lo, hi, marker) {
        Some(p) => leading_usize_at(v, p, hi),
        None => None,
    }
}

// ---------------------------------------------------------------------------
// Rocq
// ---------------------------------------------------------------------------

/// A pending Rocq position: line and column span.
pub type RocqPos = (Option<usize>, Option<usize>, Option<usize>);

/// The position a trimmed Rocq `File "…", line N, characters A-B:` locator
/// line states.
pub open spec fn rocq_locator(t: Seq<char>) -> Option<(Option<usize>, Option<usize>, Option<usize>)> {
    if has_prefix(t, "File \""@) && contains_spec(t, ", line"@) {
        let line_no = number_after(t, ", line "@);
        let (c0, c1) = match after_marker_spec(t, ", characters "@) {
            Some(x) => parse_span_spec(trim(crate::text::rtrim(x, class_pred(CharClass::Only(':'))), white_pred())),
            None => (None, None),
        };
        Some((line_no, c0, c1))
    } else {
        None
    }
}

/// The Rocq message markers, tried in this order.
pub open spec fn rocq_bodies() -> Seq<Seq<char>> {
    seq!["Error:"@, "Warning:"@, "Syntax error:"@]
}

/// The index of the first of `ps[j..]` that `t` starts with.
pub open spec fn first_prefix_from(t: Seq<char>, ps: Seq<Seq<char>>, j: int) -> Option<int>
    decreases ps.len() - j,
{
    if j < 0 || j >= ps.len() {
        None
    } else if has_prefix(t, ps[j]) {
        Some(j)
    } else {
        first_prefix_from(t, ps, j + 1)
    }
}

/// One line of Rocq output: a locator sets the pending position; a message
/// marker opens a diagnostic at the pending position (a `Warning:` one is a
/// warning) and clears it; any other non-blank line continues the last
/// message.
pub open spec fn rocq_step(st: (Seq<SDiag>, Option<(Option<usize>, Option<usize>, Option<usize>)>), l: Seq<char>) -> (Seq<SDiag>, Option<(Option<usize>, Option<usize>, Option<usize>)>) {
    let (ds, pending) = st;
    let t = trim(l, white_pred());
    match rocq_locator(t) {
        Some(pos) => (ds, Some(pos)),
        None => match first_prefix_from(t, rocq_bodies(), 0) {
            Some(j) => {
                let sev = if j == 1 { Severity::Warning } else { Severity::Error };
                let (ln, c0, c1) = match pending {
                    Some(pos) => pos,
                    None => (None, None, None),
                };
                (ds.push(diag_spec(FormalSystem::Rocq, sev, ln, None, c0, c1, trim(t.skip(rocq_bodies()[j].len() as int), white_pred()))), None)
            },
            None => if t.len() > 0 { (append_cont(ds, l), pending) } else { (ds, pending) },
        },
    }
}

/// The state after the first `n` lines of Rocq output.
pub open spec fn rocq_upto(ls: Seq<Seq<char>>, n: int) -> (Seq<SDiag>, Option<(Option<usize>, Option<usize>, Option<usize>)>)
    decreases n,
{
    if n <= 0 { (Seq::empty(), None) } else { rocq_step(rocq_upto(ls, n - 1), ls[n - 1]) }
}

/// The diagnostics of Rocq output.
pub open spec fn parse_rocq_spec(raw: Seq<char>) -> Seq<SDiag> {
    rocq_upto(lines_spec(raw), lines_spec(raw).len() as int).0
}

/// [`rocq_locator`] of the trimmed window `v[lo..hi]`.
fn rocq_locator_at(v: &Vec<char>, lo: usize, hi: usize) -> (r: Option<(Option<usize>, Option<usize>, Option<usize>)>)
    requires
        lo <= hi <= v@.len(),
    ensures
        r == rocq_locator(v@.subrange(lo as int, hi as int)),
{
    if !(starts_with_lit(v, lo, hi, "File \"") && contains_lit(v, lo, hi, ", line")) {
        return None;
    }
    let line_no = number_after_at(v, lo, hi, ", line ");
    let span = match after_marker_at(v, lo, hi, ", characters ") {
        Some(p) => {
            let e = rskip_class(v, p, hi, CharClass::Only(':'));
            let (a, b) = trim_class(v, p, e, CharClass::White);
            proof {
                assert(class_pred(CharClass::White) == white_pred());
            }
            parse_span(v, a, b)
        },
        None => (None, None),
    };
    Some((line_no, span.0, span.1))
}

/// The index of the first of `ps` the window `v[lo..hi]` starts with.
fn first_prefix_at(v: &Vec<char>, lo: usize, hi: usize, ps: &Vec<Vec<char>>) -> (r: Option<usize>)
    requires
        lo <= hi <= v@.len(),
    ensures
        match r {
            Some(j) => j < ps@.len() && first_prefix_from(v@.subrange(lo as int, hi as int), words_view(ps@), 0) == Some(j as int)
                && lo + ps@[j as int]@.len() <= hi,
            None => first_prefix_from(v@.subrange(lo as int, hi as int), words_view(ps@), 0) is None,
        },
{
    let ghost t = v@.subrange(lo as int, hi as int);
    let mut j: usize = 0;
    while j < ps.len()
        invariant
            j <= ps@.len(),
            lo <= hi <= v@.len(),
            t == v@.subrange(lo as int, hi as int),
            first_prefix_from(t, words_view(ps@), 0) == first_prefix_from(t, words_view(ps@), j as int),
        decreases ps@.len() - j,
    {
        assert(words_view(ps@)[j as int] == ps@[j as int]@);
        if starts_with_at(v, lo, hi, &ps[j]) {
            return Some(j);
        }
        j = j + 1;
    }
    None
}

/// Parse Rocq output.
fn parse_rocq(raw: &Vec<char>) -> (r: Vec<Diagnostic>)
    ensures
        diags_view(r@) == parse_rocq_spec(raw@),
{
    let ws = line_windows(raw);
    let ghost ls = lines_spec(raw@);
    let bodies = word_list(&["Error:", "Warning:", "Syntax error:"]);
    assert(words_view(bodies@) =~= rocq_bodies());
    let mut out: Vec<Diagnostic> = Vec::new();
    let mut pending: Option<(Option<usize>, Option<usize>, Option<usize>)> = None;
    let mut i: usize = 0;
    while i < ws.len()
        invariant
            ws@.len() == ls.len(),
            line_windows_of(raw@, ws@),
            ls == lines_spec(raw@),
            words_view(bodies@) == rocq_bodies(),
            i <= ws@.len(),
            rocq_upto(ls, i as int) == (diags_view(out@), pending),
        decreases ws@.len() - i,
    {
        let (a, b) = ws[i];
        proof {
            lemma_line_window(raw@, ws@, i as int);
        }
        let ghost before = diags_view(out@);
        let (x, y) = trim_class(raw, a, b, CharClass::White);
        proof {
            assert(class_pred(CharClass::White) == white_pred());
        }
        match rocq_locator_at(raw, x, y) {
            Some(pos) => {
                pending = Some(pos);
            },
            None => match first_prefix_at(raw, x, y, &bodies) {
                Some(j) => {
                    let sev = if j == 1 { Severity::Warning } else { Severity::Error };
                    let (ln, c0, c1) = match pending {
                        Some(pos) => pos,
                        None => (None, None, None),
                    };
                    let blen = bodies[j].len();
                    let (ma, mb) = trim_class(raw, x + blen, y, CharClass::White);
                    proof {
                        assert(words_view(bodies@)[j as int] == bodies@[j as int]@);
                        assert(raw@.subrange(x as int, y as int).skip(blen as int) == raw@.subrange(x + blen, y as int));
                    }
                    let d = make_diag(FormalSystem::Rocq, sev, ln, None, c0, c1, string_of_range(raw, ma, mb));
                    out.push(d);
                    assert(diags_view(out@) == before.push(d@));
                    pending = None;
                },
                None => {
                    if x < y {
                        append_continuation(&mut out, raw, a, b);
                    }
                },
            },
        }
        i = i + 1;
    }
    out
}

// ---------------------------------------------------------------------------
// Isabelle
// ---------------------------------------------------------------------------

/// One line of Isabelle output: only `***` lines count. A trailing
/// `At command … (line N …)` line locates the last diagnostic when it has no
/// line yet; any other non-empty `***` line opens a diagnostic, positioned by
/// a `(line N` it contains.
pub open spec fn isabelle_step(ds: Seq<SDiag>, l: Seq<char>) -> Seq<SDiag> {
    let t = trim(l, white_pred());
    if !has_prefix(t, "***"@) {
        ds
    } else {
        let rest = trim(t.skip("***"@.len() as int), white_pred());
        let line_no = number_after(rest, "(line "@);
        if line_no is Some && ds.len() > 0 && ds.last().line is None && has_prefix(rest, "At command"@) {
            let d = ds.last();
            ds.drop_last().push(
                SDiag {
                    system: d.system,
                    severity: d.severity,
                    line: line_no,
                    end_line: d.end_line,
                    col_start: d.col_start,
                    col_end: d.col_end,
                    message: d.message,
                    goal: d.goal,
                },
            )
        } else if rest.len() == 0 {
            ds
        } else {
            ds.push(diag_spec(FormalSystem::Isabelle, Severity::Error, line_no, None, None, None, rest))
        }
    }
}

/// The diagnostics of the first `n` lines of Isabelle output.
pub open spec fn isabelle_upto(ls: Seq<Seq<char>>, n: int) -> Seq<SDiag>
    decreases n,
{
    if n <= 0 { Seq::empty() } else { isabelle_step(isabelle_upto(ls, n - 1), ls[n - 1]) }
}

/// The diagnostics of Isabelle output.
pub open spec fn parse_isabelle_spec(raw: Seq<char>) -> Seq<SDiag> {
    isabelle_upto(lines_spec(raw), lines_spec(raw).len() as int)
}

/// Parse Isabelle output.
fn parse_isabelle(raw: &Vec<char>) -> (r: Vec<Diagnostic>)
    ensures
        diags_view(r@) == parse_isabelle_spec(raw@),
{
    let ws = line_windows(raw);
    let ghost ls = lines_spec(raw@);
    let mut out: Vec<Diagnostic> = Vec::new();
    let mut i: usize = 0;
    while i < ws.len()
        invariant
            ws@.len() == ls.len(),
            line_windows_of(raw@, ws@),
            ls == lines_spec(raw@),
            i <= ws@.len(),
            diags_view(out@) == isabelle_upto(ls, i as int),
        decreases ws@.len() - i,
    {
        let (a, b) = ws[i];
        proof {
            lemma_line_window(raw@, ws@, i as int);
        }
        let ghost before = diags_view(out@);
        let (x, y) = trim_class(raw, a, b, CharClass::White);
        proof {
            assert(class_pred(CharClass::White) == white_pred());
            reveal_strlit("***");
        }
        if starts_with_lit(raw, x, y, "***") {
            let (ra, rb) = trim_class(raw, x + 3, y, CharClass::White);
            proof {
                assert(raw@.subrange(x as int, y as int).skip(3) == raw@.subrange(x + 3, y as int));
            }
            let line_no = number_after_at(raw, ra, rb, "(line ");
            let n = out.len();
            if line_no.is_some() && n > 0 && out[n - 1].line.is_none() && starts_with_lit(raw, ra, rb, "At command") {
                let mut d = out.pop().unwrap();
                let ghost d0 = d@;
                assert(d0 == before.last());
                d.line = line_no;
                out.push(d);
                assert(diags_view(out@) =~= before.drop_last().push(d@));
            } else if ra < rb {
                let d = make_diag(FormalSystem::Isabelle, Severity::Error, line_no, None, None, None, string_of_range(raw, ra, rb));
                out.push(d);
                assert(diags_view(out@) == before.push(d@));
            }
        }
        i = i + 1;
    }
    out
}

// ---------------------------------------------------------------------------
// Agda
// ---------------------------------------------------------------------------

/// The positions an Agda range `L,C-E` or `L,C-L2,C2` states: start line,
/// end line, start column, end column; `None` unless the start line parses.
pub open spec fn agda_range_spec(range: Seq<char>) -> Option<(usize, Option<usize>, Option<usize>, Option<usize>)> {
    let (start, stop) = match first_where(range, class_pred(CharClass::Only('-'))) {
        Some(k) => (range.take(k), Some(range.skip(k + 1))),
        None => (range, None),
    };
    match first_where(start, class_pred(CharClass::Only(','))) {
        None => None,
        Some(c) => match parse_usize_spec(trim(start.take(c), white_pred())) {
            None => None,
            Some(l0) => {
                let c0 = parse_usize_spec(trim(start.skip(c + 1), white_pred()));
                let (l1, c1) = match stop {
                    Some(x) => match first_where(x, class_pred(CharClass::Only(','))) {
                        Some(q) => (
                            parse_usize_spec(trim(x.take(q), white_pred())),
                            parse_usize_spec(trim(x.skip(q + 1), white_pred())),
                        ),
                        None => (None, parse_usize_spec(trim(x, white_pred()))),
                    },
                    None => (None, None),
                };
                Some((l0, l1, c0, c1))
            },
        },
    }
}

/// An Agda locator `….agda:RANGE: message`: the positions of the range (see
/// [`agda_range_spec`]) and the message.
pub open spec fn agda_locator_spec(l: Seq<char>) -> Option<(usize, Option<usize>, Option<usize>, Option<usize>, Seq<char>)> {
    match after_marker_spec(l, ".agda:"@) {
        None => None,
        Some(rest) => match find_sub(rest, ": "@) {
            None => None,
            Some(end) => match agda_range_spec(rest.take(end)) {
                Some((l0, l1, c0, c1)) => Some((l0, l1, c0, c1, trim(rest.skip(end + 2), white_pred()))),
                None => None,
            },
        },
    }
}

/// One line of Agda output: a locator line opens a diagnostic; any other
/// non-blank line continues the last message.
pub open spec fn agda_step(ds: Seq<SDiag>, l: Seq<char>) -> Seq<SDiag> {
    match agda_locator_spec(l) {
        Some((l0, l1, c0, c1, msg)) => ds.push(diag_spec(FormalSystem::Agda, Severity::Error, Some(l0), l1, c0, c1, msg)),
        None => if trim(l, white_pred()).len() > 0 { append_cont(ds, l) } else { ds },
    }
}

/// The diagnostics of the first `n` lines of Agda output.
pub open spec fn agda_upto(ls: Seq<Seq<char>>, n: int) -> Seq<SDiag>
    decreases n,
{
    if n <= 0 { Seq::empty() } else { agda_step(agda_upto(ls, n - 1), ls[n - 1]) }
}

/// The diagnostics of Agda output.
pub open spec fn parse_agda_spec(raw: Seq<char>) -> Seq<SDiag> {
    agda_upto(lines_spec(raw), lines_spec(raw).len() as int)
}

/// Parse the window `v[lo..hi]` as a trimmed `usize`.
fn trimmed_usize(v: &Vec<char>, lo: usize, hi: usize) -> (r: Option<usize>)
    requires
        lo <= hi <= v@.len(),
    ensures
        r == parse_usize_spec(trim(v@.subrange(lo as int, hi as int), white_pred())),
{
    let (a, b) = trim_class(v, lo, hi, CharClass::White);
    assert(class_pred(CharClass::White) == white_pred());
    parse_usize_at(v, a, b)
}

/// [`agda_range_spec`] of the window `v[p..end]`.
fn agda_range(v: &Vec<char>, p: usize, end: usize) -> (r: Option<(usize, Option<usize>, Option<usize>, Option<usize>)>)
    requires
        p <= end <= v@.len(),
    ensures
        r == agda_range_spec(v@.subrange(p as int, end as int)),
{
    let ghost range = v@.subrange(p as int, end as int);
    let k = find_class(v, p, end, CharClass::Only('-'));
    let s_hi = if k < end { k } else { end };
    proof {
        if k < end {
            assert(range.take(k - p) == v@.subrange(p as int, k as int));
            assert(range.skip(k - p + 1) == v@.subrange(k + 1, end as int));
        }
    }
    let c = find_class(v, p, s_hi, CharClass::Only(','));
    if c == s_hi {
        return None;
    }
    let ghost start = v@.subrange(p as int, s_hi as int);
    proof {
        assert(start.take(c - p) == v@.subrange(p as int, c as int));
        assert(start.skip(c - p + 1) == v@.subrange(c + 1, s_hi as int));
    }
    let l0 = match trimmed_usize(v, p, c) {
        Some(n) => n,
        None => return None,
    };
    let c0 = trimmed_usize(v, c + 1, s_hi);
    let (l1, c1) = agda_stop(v, k, end);
    Some((l0, l1, c0, c1))
}

/// The end line and column of an Agda range whose `-` is at `k` (none when
/// `k == end`).
fn agda_stop(v: &Vec<char>, k: usize, end: usize) -> (r: (Option<usize>, Option<usize>))
    requires
        k <= end <= v@.len(),
    ensures
        k == end ==> r == (None::<usize>, None::<usize>),
        k < end ==> r == match first_where(v@.subrange(k + 1, end as int), class_pred(CharClass::Only(','))) {
            Some(q) => (
                parse_usize_spec(trim(v@.subrange(k + 1, end as int).take(q), white_pred())),
                parse_usize_spec(trim(v@.subrange(k + 1, end as int).skip(q + 1), white_pred())),
            ),
            None => (None, parse_usize_spec(trim(v@.subrange(k + 1, end as int), white_pred()))),
        },
{
    if k == end {
        return (None, None);
    }
    let ghost x = v@.subrange(k + 1, end as int);
    let q = find_class(v, k + 1, end, CharClass::Only(','));
    if q < end {
        proof {
            assert(x.take(q - (k + 1)) == v@.subrange(k + 1, q as int));
            assert(x.skip(q - (k + 1) + 1) == v@.subrange(q + 1, end as int));
        }
        (trimmed_usize(v, k + 1, q), trimmed_usize(v, q + 1, end))
    } else {
        (None, trimmed_usize(v, k + 1, end))
    }
}

/// [`agda_locator_spec`] of the line window `v[lo..hi]`, the message as a
/// window.
fn agda_locator(v: &Vec<char>, lo: usize, hi: usize) -> (r: Option<(usize, Option<usize>, Option<usize>, Option<usize>, (usize, usize))>)
    requires
        lo <= hi <= v@.len(),
    ensures
        match r {
            Some((l0, l1, c0, c1, (ma, mb))) => ma <= mb <= v@.len() && agda_locator_spec(v@.subrange(lo as int, hi as int))
                == Some((l0, l1, c0, c1, v@.subrange(ma as int, mb as int))),
            None => agda_locator_spec(v@.subrange(lo as int, hi as int)) is None,
        },
{
    let p = match after_marker_at(v, lo, hi, ".agda:") {
        Some(p) => p,
        None => return None,
    };
    let ghost rest = v@.subrange(p as int, hi as int);
    let sep = chars_of(": ");
    proof {
        reveal_strlit(": ");
    }
    let end = match find_sub_at(v, p, hi, &sep) {
        Some(k) => p + k,
        None => return None,
    };
    let (ma, mb) = trim_class(v, end + 2, hi, CharClass::White);
    proof {
        assert(class_pred(CharClass::White) == white_pred());
        assert(rest.take(end - p) == v@.subrange(p as int, end as int));
        assert(rest.skip(end - p + 2) == v@.subrange(end + 2, hi as int));
    }
    match agda_range(v, p, end) {
        Some((l0, l1, c0, c1)) => Some((l0, l1, c0, c1, (ma, mb))),
        None => None,
    }
}

/// Parse Agda output.
fn parse_agda(raw: &Vec<char>) -> (r: Vec<Diagnostic>)
    ensures
        diags_view(r@) == parse_agda_spec(raw@),
{
    let ws = line_windows(raw);
    let ghost ls = lines_spec(raw@);
    let mut out: Vec<Diagnostic> = Vec::new();
    let mut i: usize = 0;
    while i < ws.len()
        invariant
            ws@.len() == ls.len(),
            line_windows_of(raw@, ws@),
            ls == lines_spec(raw@),
            i <= ws@.len(),
            diags_view(out@) == agda_upto(ls, i as int),
        decreases ws@.len() - i,
    {
        let (a, b) = ws[i];
        proof {
            lemma_line_window(raw@, ws@, i as int);
        }
        let ghost before = diags_view(out@);
        match agda_locator(raw, a, b) {
            Some((l0, l1, c0, c1, (ma, mb))) => {
                let d = make_diag(FormalSystem::Agda, Severity::Error, Some(l0), l1, c0, c1, string_of_range(raw, ma, mb));
                out.push(d);
                assert(diags_view(out@) == before.push(d@));
            },
            None => {
                let (x, y) = trim_class(raw, a, b, CharClass::White);
                assert(class_pred(CharClass::White) == white_pred());
                if x < y {
                    append_continuation(&mut out, raw, a, b);
                }
            },
        }
        i = i + 1;
    }
    out
}

// ---------------------------------------------------------------------------
// Metamath
// ---------------------------------------------------------------------------

/// One line of Metamath output: a `?Error` / `?Warning` line opens a
/// diagnostic, positioned by ` on line N`, its message after the first `: `
/// (else the whole line); any other non-blank line continues the last
/// message.
pub open spec fn metamath_step(ds: Seq<SDiag>, l: Seq<char>) -> Seq<SDiag> {
    let t = trim(l, white_pred());
    if has_prefix(t, "?Error"@) || has_prefix(t, "?Warning"@) {
        let sev = if has_prefix(t, "?Error"@) { Severity::Error } else { Severity::Warning };
        let body = match find_sub(t, ": "@) {
            Some(k) => trim(t.skip(k + 2), white_pred()),
            None => t,
        };
        ds.push(diag_spec(FormalSystem::Metamath, sev, number_after(t, " on line "@), None, None, None, body))
    } else if t.len() > 0 {
        append_cont(ds, l)
    } else {
        ds
    }
}

/// The diagnostics of the first `n` lines of Metamath output.
pub open spec fn metamath_upto(ls: Seq<Seq<char>>, n: int) -> Seq<SDiag>
    decreases n,
{
    if n <= 0 { Seq::empty() } else { metamath_step(metamath_upto(ls, n - 1), ls[n - 1]) }
}

/// The diagnostics of Metamath output.
pub open spec fn parse_metamath_spec(raw: Seq<char>) -> Seq<SDiag> {
    metamath_upto(lines_spec(raw), lines_spec(raw).len() as int)
}

/// Parse Metamath output.
fn parse_metamath(raw: &Vec<char>) -> (r: Vec<Diagnostic>)
    ensures
        diags_view(r@) == parse_metamath_spec(raw@),
{
    let ws = line_windows(raw);
    let ghost ls = lines_spec(raw@);
    let sep = chars_of(": ");
    proof {
        reveal_strlit(": ");
    }
    let mut out: Vec<Diagnostic> = Vec::new();
    let mut i: usize = 0;
    while i < ws.len()
        invariant
            ws@.len() == ls.len(),
            line_windows_of(raw@, ws@),
            ls == lines_spec(raw@),
            sep@ == ": "@,
            sep@.len() == 2,
            i <= ws@.len(),
            diags_view(out@) == metamath_upto(ls, i as int),
        decreases ws@.len() - i,
    {
        let (a, b) = ws[i];
        proof {
            lemma_line_window(raw@, ws@, i as int);
        }
        let ghost before = diags_view(out@);
        let (x, y) = trim_class(raw, a, b, CharClass::White);
        assert(class_pred(CharClass::White) == white_pred());
        let is_err = starts_with_lit(raw, x, y, "?Error");
        if is_err || starts_with_lit(raw, x, y, "?Warning") {
            let sev = if is_err { Severity::Error } else { Severity::Warning };
            let line_no = number_after_at(raw, x, y, " on line ");
            let (ma, mb) = match find_sub_at(raw, x, y, &sep) {
                Some(k) => {
                    let (ma, mb) = trim_class(raw, x + k + 2, y, CharClass::White);
                    assert(raw@.subrange(x as int, y as int).skip(k + 2) == raw@.subrange(x + k + 2, y as int));
                    (ma, mb)
                },
                None => (x, y),
            };
            let d = make_diag(FormalSystem::Metamath, sev, line_no, None, None, None, string_of_range(raw, ma, mb));
            out.push(d);
            assert(diags_view(out@) == before.push(d@));
        } else if x < y {
            append_continuation(&mut out, raw, a, b);
        }
        i = i + 1;
    }
    out
}

// ---------------------------------------------------------------------------
// Generic fallback
// ---------------------------------------------------------------------------

/// One line of output in no known format: a non-blank line mentioning
/// `error` or `exception` (ignoring ASCII case) opens an error, one
/// mentioning `warning` a warning, positioned by a `line N` it contains; its
/// message is the trimmed line.
pub open spec fn generic_step(system: FormalSystem, ds: Seq<SDiag>, l: Seq<char>) -> Seq<SDiag> {
    let t = trim(l, white_pred());
    let low = t.map_values(|c: char| ascii_lower(c));
    if t.len() == 0 {
        ds
    } else if contains_spec(low, "error"@) || contains_spec(low, "exception"@) {
        ds.push(diag_spec(system, Severity::Error, number_after(t, "line "@), None, None, None, t))
    } else if contains_spec(low, "warning"@) {
        ds.push(diag_spec(system, Severity::Warning, number_after(t, "line "@), None, None, None, t))
    } else {
        ds
    }
}

/// The diagnostics of the first `n` lines of unformatted output.
pub open spec fn generic_upto(system: FormalSystem, ls: Seq<Seq<char>>, n: int) -> Seq<SDiag>
    decreases n,
{
    if n <= 0 { Seq::empty() } else { generic_step(system, generic_upto(system, ls, n - 1), ls[n - 1]) }
}

/// The diagnostics of unformatted output.
pub open spec fn parse_generic_spec(system: FormalSystem, raw: Seq<char>) -> Seq<SDiag> {
    generic_upto(system, lines_spec(raw), lines_spec(raw).len() as int)
}

/// Parse output in no known format.
fn parse_generic(system: FormalSystem, raw: &Vec<char>) -> (r: Vec<Diagnostic>)
    ensures
        diags_view(r@) == parse_generic_spec(system, raw@),
{
    let ws = line_windows(raw);
    let ghost ls = lines_spec(raw@);
    let mut out: Vec<Diagnostic> = Vec::new();
    let mut i: usize = 0;
    while i < ws.len()
        invariant
            ws@.len() == ls.len(),
            line_windows_of(raw@, ws@),
            ls == lines_spec(raw@),
            i <= ws@.len(),
            diags_view(out@) == generic_upto(system, ls, i as int),
        decreases ws@.len() - i,
    {
        let (a, b) = ws[i];
        proof {
            lemma_line_window(raw@, ws@, i as int);
        }
        let ghost before = diags_view(out@);
        let (x, y) = trim_class(raw, a, b, CharClass::White);
        assert(class_pred(CharClass::White) == white_pred());
        if x < y {
            let low = ascii_lower_range(raw, x, y);
            let n = low.len();
            assert(low@.subrange(0, n as int) == low@);
            let sev = if contains_lit(&low, 0, n, "error") || contains_lit(&low, 0, n, "exception") {
                Some(Severity::Error)
            } else if contains_lit(&low, 0, n, "warning") {
                Some(Severity::Warning)
            } else {
                None
            };
            if let Some(sev) = sev {
                let line_no = number_after_at(raw, x, y, "line ");
                let d = make_diag(system, sev, line_no, None, None, None, string_of_range(raw, x, y));
                out.push(d);
                assert(diags_view(out@) == before.push(d@));
            }
        }
        i = i + 1;
    }
    out
}

// ---------------------------------------------------------------------------
// Dispatch
// ---------------------------------------------------------------------------

/// The diagnostics of checker output `raw` in `system`'s format.
pub open spec fn parse_diagnostics_spec(system: FormalSystem, raw: Seq<char>) -> Seq<SDiag> {
    match system {
        FormalSystem::Lean => parse_lean_spec(raw),
        FormalSystem::Rocq => parse_rocq_spec(raw),
        FormalSystem::Isabelle => parse_isabelle_spec(raw),
        FormalSystem::Agda => parse_agda_spec(raw),
        FormalSystem::Metamath => parse_metamath_spec(raw),
        FormalSystem::Candle => parse_generic_spec(FormalSystem::Candle, raw),
    }
}

/// Whether `raw` can be parsed for `system`: only Lean needs its columns
/// below `usize::MAX` (see [`lean_line_fits`]).
pub open spec fn parsable(system: FormalSystem, raw: Seq<char>) -> bool {
    system == FormalSystem::Lean ==> lean_fits(raw)
}

/// Parse `raw` into diagnostics using `system`'s message format; empty when
/// nothing matched.
pub fn parse_diagnostics(system: FormalSystem, raw: &str) -> (r: Vec<Diagnostic>)
    requires
        parsable(system, raw@),
    ensures
        diags_view(r@) == parse_diagnostics_spec(system, raw@),
{
    let v = chars_of(raw);
    match system {
        FormalSystem::Lean => parse_lean(&v),
        FormalSystem::Rocq => parse_rocq(&v),
        FormalSystem::Isabelle => parse_isabelle(&v),
        FormalSystem::Agda => parse_agda(&v),
        FormalSystem::Metamath => parse_metamath(&v),
        FormalSystem::Candle => parse_generic(FormalSystem::Candle, &v),
    }
}

/// Whether [`parse_diagnostics`] accepts `raw` for `system`: false only for
/// Lean output stating a column of `usize::MAX`.
#[verifier::spinoff_prover]
pub fn can_parse(system: FormalSystem, raw: &str) -> (r: bool)
    ensures
        r == parsable(system, raw@),
{
    if system != FormalSystem::Lean {
        return true;
    }
    let v = chars_of(raw);
    let ws = line_windows(&v);
    let ghost ls = lines_spec(v@);
    let markers = word_list(&[": error:", ": warning:", ": info:"]);
    assert(words_view(markers@) =~= lean_markers());
    let mut i: usize = 0;
    while i < ws.len()
        invariant
            ws@.len() == ls.len(),
            line_windows_of(v@, ws@),
            ls == lines_spec(v@),
            v@ == raw@,
            system == FormalSystem::Lean,
            words_view(markers@) == lean_markers(),
            i <= ws@.len(),
            forall|j: int| 0 <= j < i ==> lean_line_fits(#[trigger] ls[j]),
        decreases ws@.len() - i,
    {
        let (a, b) = ws[i];
        proof {
            lemma_line_window(v@, ws@, i as int);
        }
        if let Some((p, j)) = first_marker_at(&v, a, b, &markers) {
            let (_, c0, c1) = lean_position_at(&v, a, p);
            proof {
                assert(ls[i as int].take(p - a) == v@.subrange(a as int, p as int));
            }
            if c0 == Some(usize::MAX) || c1 == Some(usize::MAX) {
                proof {
                    assert(words_view(markers@) == lean_markers());
                    assert(!lean_line_fits(ls[i as int]));
                    assert(!lean_line_fits(lines_spec(raw@)[i as int]));
                }
                return false;
            }
        }
        i = i + 1;
    }
    true
}


// ---------------------------------------------------------------------------
// Rendering
// ---------------------------------------------------------------------------

/// `lines` with the middle elided when there are more than `threshold`: a
/// head of `(threshold + 1) / 2` lines, the truncation marker, and a tail of
/// the rest of `threshold`. A threshold of 0 never elides.
pub open spec fn elide_spec(lines: Seq<Seq<char>>, threshold: nat) -> Seq<Seq<char>> {
    if threshold == 0 || lines.len() <= threshold {
        lines
    } else {
        let head = (threshold + 1) / 2;
        let tail = threshold - head;
        lines.take(head as int).push(TRUNCATION_MARKER@) + lines.skip(lines.len() - tail)
    }
}

/// The models of a sequence of strings.
pub open spec fn strs_view(v: Seq<String>) -> Seq<Seq<char>> {
    v.map_values(|s: String| s@)
}

/// Elide the middle of `lines` when there are more than `threshold` (see
/// [`elide_spec`]).
pub fn elide(lines: Vec<String>, threshold: usize) -> (r: Vec<String>)
    ensures
        strs_view(r@) == elide_spec(strs_view(lines@), threshold as nat),
{
    let n = lines.len();
    if threshold == 0 || n <= threshold {
        return lines;
    }
    let head = (threshold + 1) / 2;
    let tail = threshold - head;
    let mut out: Vec<String> = Vec::new();
    let mut i: usize = 0;
    while i < head
        invariant
            head <= threshold < n == lines@.len(),
            i <= head,
            strs_view(out@) == strs_view(lines@).take(i as int),
        decreases head - i,
    {
        out.push(lines[i].clone());
        assert(strs_view(lines@).take(i + 1) == strs_view(lines@).take(i as int).push(lines@[i as int]@));
        i = i + 1;
    }
    out.push(owned(TRUNCATION_MARKER));
    let ghost mid = strs_view(out@);
    let mut j: usize = n - tail;
    assert(strs_view(lines@).skip(n - tail).take(0) == Seq::<Seq<char>>::empty());
    while j < n
        invariant
            n == lines@.len(),
            tail <= n,
            n - tail <= j <= n,
            strs_view(out@) == mid + strs_view(lines@).skip(n - tail).take(j - (n - tail)),
        decreases n - j,
    {
        let ghost o0 = strs_view(out@);
        out.push(lines[j].clone());
        assert(strs_view(out@) == o0.push(lines@[j as int]@));
        assert(strs_view(lines@).skip(n - tail)[j - (n - tail)] == lines@[j as int]@);
        assert(strs_view(lines@).skip(n - tail).take(j + 1 - (n - tail)) == strs_view(lines@).skip(n - tail).take(j - (n - tail)).push(lines@[j as int]@));
        j = j + 1;
    }
    assert(strs_view(lines@).skip(n - tail).take(tail as int) == strs_view(lines@).skip(n - tail));
    out
}

/// `x - 1`, but 0 for 0.
pub open spec fn dec1(x: usize) -> nat {
    if x == 0 { 0 } else { (x - 1) as nat }
}

/// The inline-marked line: the 1-based half-open column span `[c0, c1)`
/// (to the end when `c1` is `None`), clamped to the line, wrapped in the
/// delimiters.
pub open spec fn mark_inline_spec(line: Seq<char>, c0: usize, c1: Option<usize>) -> Seq<char> {
    let n = line.len();
    let start = if dec1(c0) < n { dec1(c0) as int } else { n as int };
    let e: int = match c1 {
        Some(c) => dec1(c) as int,
        None => n as int,
    };
    let end = if e < start { start } else if e > n { n as int } else { e };
    line.take(start) + ERROR_OPEN@ + line.subrange(start, end) + ERROR_CLOSE@ + line.skip(end)
}

/// Wrap the column span `[c0, c1)` of `line` in the delimiters.
fn mark_inline(line: &Vec<char>, c0: usize, c1: Option<usize>) -> (r: String)
    ensures
        r@ == mark_inline_spec(line@, c0, c1),
{
    let n = line.len();
    let d0 = if c0 == 0 { 0 } else { c0 - 1 };
    let start = if d0 < n { d0 } else { n };
    let e = match c1 {
        Some(c) => if c == 0 { 0 } else { c - 1 },
        None => n,
    };
    let end = if e < start { start } else if e > n { n } else { e };
    let mut out = String::new();
    push_range(&mut out, line, 0, start);
    out.append(ERROR_OPEN);
    push_range(&mut out, line, start, end);
    out.append(ERROR_CLOSE);
    push_range(&mut out, line, end, n);
    proof {
        assert(line@.subrange(0, start as int) == line@.take(start as int));
        assert(line@.subrange(end as int, n as int) == line@.skip(end as int));
    }
    out
}

/// `s` padded on the left with spaces to `width` characters.
pub open spec fn pad_left(s: Seq<char>, width: nat) -> Seq<char> {
    if s.len() < width { Seq::new((width - s.len()) as nat, |i: int| ' ') + s } else { s }
}

/// One gutter line: the right-aligned line number, ` | `, the text, `\n`.
pub open spec fn gutter_spec(width: nat, n: nat, text: Seq<char>) -> Seq<char> {
    pad_left(decimal(n), width) + " | "@ + text + seq!['\n']
}

/// The number of decimal digits of `n`.
pub(crate) fn decimal_len(n: usize) -> (r: usize)
    ensures
        r == decimal(n as nat).len(),
{
    let mut m = n;
    let mut c: usize = 1;
    while m >= 10
        invariant
            c >= 1,
            decimal(n as nat).len() == decimal(m as nat).len() + c - 1,
            c + m <= n + 1,
        decreases m,
    {
        assert(decimal(m as nat).len() == decimal((m / 10) as nat).len() + 1);
        m = m / 10;
        c = c + 1;
    }
    c
}


/// Append `n` right-aligned to `width` characters.
pub(crate) fn push_padded(out: &mut String, n: usize, width: usize)
    ensures
        final(out)@ == old(out)@ + pad_left(decimal(n as nat), width as nat),
{
    let len = decimal_len(n);
    let ghost o0 = out@;
    if len < width {
        let mut k: usize = 0;
        while k < width - len
            invariant
                len < width,
                k <= width - len,
                out@ == o0 + Seq::new(k as nat, |i: int| ' '),
            decreases width - len - k,
        {
            push_char(out, ' ');
            assert(out@ =~= o0 + Seq::new((k + 1) as nat, |i: int| ' '));
            k = k + 1;
        }
    }
    push_decimal(out, n);
    proof {
        if len < width {
            assert(o0 + Seq::new((width - len) as nat, |i: int| ' ') + decimal(n as nat) == o0 + pad_left(decimal(n as nat), width as nat));
        } else {
            assert(o0 + decimal(n as nat) == o0 + pad_left(decimal(n as nat), width as nat));
        }
    }
}

/// One gutter line (see [`gutter_spec`]).
fn gutter(width: usize, n: usize, text: &Vec<char>) -> (r: String)
    ensures
        r@ == gutter_spec(width as nat, n as nat, text@),
{
    let mut out = String::new();
    push_padded(&mut out, n, width);
    out.append(" | ");
    push_range(&mut out, text, 0, text.len());
    push_char(&mut out, '\n');
    proof {
        assert(text@.subrange(0, text@.len() as int) == text@);
    }
    out
}

/// Where a diagnostic is, in words.
pub open spec fn where_spec(d: SDiag) -> Seq<char> {
    match (d.line, d.col_start) {
        (Some(l), Some(c)) => match d.col_end {
            Some(e) => "line "@ + decimal(l as nat) + ", columns "@ + decimal(c as nat) + "-"@ + decimal(e as nat),
            None => "line "@ + decimal(l as nat) + ", column "@ + decimal(c as nat),
        },
        (Some(l), None) => "line "@ + decimal(l as nat),
        (None, _) => "no source position reported"@,
    }
}

/// The 0-based first and last source line of a diagnostic's region, clamped
/// to the source; `None` without a line or without source.
pub open spec fn span_spec(n_lines: nat, d: SDiag) -> Option<(int, int)> {
    match d.line {
        Some(l) => if n_lines == 0 {
            None
        } else {
            let li: int = if dec1(l) < n_lines - 1 { dec1(l) as int } else { n_lines - 1 };
            let e: int = match d.end_line {
                Some(e) => dec1(e) as int,
                None => li,
            };
            let se: int = if e < li { li } else if e > n_lines - 1 { n_lines - 1 } else { e };
            Some((li, se))
        },
        None => None,
    }
}

/// Whether the trailing context of a diagnostic's region can be counted in a
/// `usize` (the region's last line plus `context_lines_after` must fit).
pub open spec fn render_ok(n_lines: nat, d: SDiag, cfg: FeedbackConfig) -> bool {
    match span_spec(n_lines, d) {
        Some((_, se)) => se + cfg.context_lines_after <= usize::MAX,
        None => true,
    }
}

/// Gutter lines for the 0-based source lines `a..b`.
pub open spec fn gutters(lines: Seq<Seq<char>>, width: nat, a: int, b: int) -> Seq<char>
    decreases b - a,
{
    if a >= b {
        Seq::empty()
    } else {
        gutters(lines, width, a, b - 1) + gutter_spec(width, b as nat, lines[b - 1])
    }
}

/// Each of `ls` followed by `'\n'`.
pub open spec fn nl_lines(ls: Seq<Seq<char>>) -> Seq<char>
    decreases ls.len(),
{
    if ls.len() == 0 {
        Seq::empty()
    } else {
        nl_lines(ls.drop_last()) + ls.last() + seq!['\n']
    }
}

/// The offending region `li..=se`: a single line with a column marked
/// inline, or the region's gutter lines (middle elided) between delimiter
/// lines.
#[verifier::opaque]
pub open spec fn region_spec(lines: Seq<Seq<char>>, d: SDiag, cfg: FeedbackConfig, width: nat, li: int, se: int) -> Seq<char> {
    if li == se && d.col_start is Some {
        gutter_spec(width, (li + 1) as nat, mark_inline_spec(lines[li], d.col_start->0, d.col_end))
    } else {
        let span = Seq::new(
            (se - li + 1) as nat,
            |k: int| rtrim(gutter_spec(width, (li + k + 1) as nat, lines[li + k]), class_pred(CharClass::Only('\n'))),
        );
        ERROR_OPEN@ + seq!['\n'] + nl_lines(elide_spec(span, cfg.elide_threshold as nat)) + ERROR_CLOSE@ + seq!['\n']
    }
}

/// The rendering of diagnostic number `index`: a heading, the source
/// context around its region when positioned, its message, and its goal
/// state when present.
pub open spec fn render_one_spec(lines: Seq<Seq<char>>, d: SDiag, cfg: FeedbackConfig, index: nat) -> Seq<char> {
    let msg = "message: "@ + rtrim(d.message, white_pred()) + seq!['\n'];
    let goal = match d.goal {
        Some(g) => "goal state:\n"@ + rtrim(g, white_pred()) + seq!['\n'],
        None => Seq::empty(),
    };
    heading_spec(d, index) + context_spec(lines, d, cfg) + msg + goal
}

/// Append the gutter lines for source lines `a..b` to `out`.
fn push_gutters(out: &mut String, lines: &Vec<Vec<char>>, width: usize, a: usize, b: usize)
    requires
        a <= b <= lines@.len(),
    ensures
        final(out)@ == old(out)@ + gutters(words_view(lines@), width as nat, a as int, b as int),
{
    let mut n: usize = a;
    while n < b
        invariant
            a <= n <= b <= lines@.len(),
            out@ == old(out)@ + gutters(words_view(lines@), width as nat, a as int, n as int),
        decreases b - n,
    {
        let g = gutter(width, n + 1, &lines[n]);
        out.append(g.as_str());
        assert(words_view(lines@)[n as int] == lines@[n as int]@);
        n = n + 1;
    }
}

/// Append each of `ls` and a newline to `out`.
fn push_nl_lines(out: &mut String, ls: &Vec<String>)
    ensures
        final(out)@ == old(out)@ + nl_lines(strs_view(ls@)),
{
    let mut i: usize = 0;
    while i < ls.len()
        invariant
            i <= ls@.len(),
            out@ == old(out)@ + nl_lines(strs_view(ls@).take(i as int)),
        decreases ls@.len() - i,
    {
        out.append(ls[i].as_str());
        push_char(out, '\n');
        assert(strs_view(ls@).take(i + 1).drop_last() == strs_view(ls@).take(i as int));
        i = i + 1;
    }
    assert(strs_view(ls@).take(ls@.len() as int) == strs_view(ls@));
}

/// The heading of diagnostic number `index`.
pub open spec fn heading_spec(d: SDiag, index: nat) -> Seq<char> {
    "-- "@ + severity_tag(d.severity) + " "@ + decimal(index) + " at "@ + where_spec(d) + " --\n"@
}

/// The source context of a diagnostic: the lines before its region, the
/// region, and the lines after it; empty when it is not positioned.
pub open spec fn context_spec(lines: Seq<Seq<char>>, d: SDiag, cfg: FeedbackConfig) -> Seq<char> {
    match span_spec(lines.len(), d) {
        Some((li, se)) => {
            let ctx_start: int = if li >= cfg.context_lines_before { li - cfg.context_lines_before } else { 0 };
            let ctx_end: int = if se + cfg.context_lines_after < lines.len() - 1 {
                se + cfg.context_lines_after
            } else {
                lines.len() - 1
            };
            let width = decimal((ctx_end + 1) as nat).len();
            gutters(lines, width, ctx_start, li) + region_spec(lines, d, cfg, width, li, se) + gutters(
                lines,
                width,
                se + 1,
                ctx_end + 1,
            )
        },
        None => Seq::empty(),
    }
}

/// Append the heading of diagnostic number `index`.
fn push_heading(out: &mut String, d: &Diagnostic, index: usize)
    ensures
        final(out)@ == old(out)@ + heading_spec(d@, index as nat),
{
    out.append("-- ");
    out.append(d.severity.as_str());
    out.append(" ");
    push_decimal(out, index);
    out.append(" at ");
    match (d.line, d.col_start) {
        (Some(l), Some(c)) => match d.col_end {
            Some(e) => {
                out.append("line ");
                push_decimal(out, l);
                out.append(", columns ");
                push_decimal(out, c);
                out.append("-");
                push_decimal(out, e);
            },
            None => {
                out.append("line ");
                push_decimal(out, l);
                out.append(", column ");
                push_decimal(out, c);
            },
        },
        (Some(l), None) => {
            out.append("line ");
            push_decimal(out, l);
        },
        (None, _) => {
            out.append("no source position reported");
        },
    }
    out.append(" --\n");
}

/// Append the offending region `li..=se` (see [`region_spec`]).
fn push_region(
    out: &mut String,
    lines: &Vec<Vec<char>>,
    d: &Diagnostic,
    cfg: &FeedbackConfig,
    width: usize,
    li: usize,
    se: usize,
)
    requires
        li <= se < lines@.len(),
    ensures
        final(out)@ == old(out)@ + region_spec(words_view(lines@), d@, *cfg, width as nat, li as int, se as int),
{
    let ghost ls = words_view(lines@);
    let n = lines.len();
    proof {
        reveal(region_spec);
    }
    if li == se && d.col_start.is_some() {
        let c0 = match d.col_start {
            Some(c) => c,
            None => 1,
        };
        let marked = mark_inline(&lines[li], c0, d.col_end);
        let mv = chars_of(marked.as_str());
        let g = gutter(width, li + 1, &mv);
        out.append(g.as_str());
        assert(ls[li as int] == lines@[li as int]@);
    } else {
        out.append(ERROR_OPEN);
        push_char(out, '\n');
        let mut span: Vec<String> = Vec::new();
        let mut k: usize = li;
        let ghost full = Seq::new(
            (se - li + 1) as nat,
            |j: int| rtrim(gutter_spec(width as nat, (li + j + 1) as nat, ls[li + j]), class_pred(CharClass::Only('\n'))),
        );
        while k <= se
            invariant
                li <= k <= se + 1,
                se < lines@.len() == n,
                ls == words_view(lines@),
                full == Seq::new(
                    (se - li + 1) as nat,
                    |j: int| rtrim(gutter_spec(width as nat, (li + j + 1) as nat, ls[li + j]), class_pred(CharClass::Only('\n'))),
                ),
                strs_view(span@) == full.take(k - li),
            decreases se + 1 - k,
        {
            let g = gutter(width, k + 1, &lines[k]);
            let gv = chars_of(g.as_str());
            let t = rskip_class(&gv, 0, gv.len(), CharClass::Only('\n'));
            let ghost s0 = strs_view(span@);
            span.push(string_of_range(&gv, 0, t));
            proof {
                assert(gv@.subrange(0, gv@.len() as int) == gv@);
                assert(ls[k as int] == lines@[k as int]@);
                assert(full[k - li] == rtrim(gutter_spec(width as nat, (k + 1) as nat, ls[k as int]), class_pred(CharClass::Only('\n'))));
                assert(strs_view(span@) == s0.push(full[k - li]));
                assert(full.take(k + 1 - li) == full.take(k - li).push(full[k - li]));
            }
            k = k + 1;
        }
        assert(full.take(se + 1 - li) == full);
        let el = elide(span, cfg.elide_threshold);
        push_nl_lines(out, &el);
        out.append(ERROR_CLOSE);
        push_char(out, '\n');
    }
}

/// Append the source context of `d` (see [`context_spec`]).
#[verifier::spinoff_prover]
#[verifier::rlimit(60)]
fn push_context(out: &mut String, lines: &Vec<Vec<char>>, d: &Diagnostic, cfg: &FeedbackConfig)
    requires
        render_ok(lines@.len() as nat, d@, *cfg),
    ensures
        final(out)@ == old(out)@ + context_spec(words_view(lines@), d@, *cfg),
{
    let n = lines.len();
    if let Some(l) = d.line {
        if n > 0 {
            let d1 = if l == 0 { 0 } else { l - 1 };
            let li = if d1 < n - 1 { d1 } else { n - 1 };
            let e = match d.end_line {
                Some(e) => if e == 0 { 0 } else { e - 1 },
                None => li,
            };
            let se = if e < li { li } else if e > n - 1 { n - 1 } else { e };
            let ctx_start = if li >= cfg.context_lines_before { li - cfg.context_lines_before } else { 0 };
            let ctx_end = if se + cfg.context_lines_after < n - 1 { se + cfg.context_lines_after } else { n - 1 };
            let width = decimal_len(ctx_end + 1);
            assert(span_spec(n as nat, d@) == Some((li as int, se as int)));
            let ghost o0 = out@;
            push_gutters(out, lines, width, ctx_start, li);
            let ghost o1 = out@;
            push_region(out, lines, d, cfg, width, li, se);
            let ghost o2 = out@;
            push_gutters(out, lines, width, se + 1, ctx_end + 1);
            proof {
                let ls = words_view(lines@);
                assert(context_spec(ls, d@, *cfg) == gutters(ls, width as nat, ctx_start as int, li as int)
                    + region_spec(ls, d@, *cfg, width as nat, li as int, se as int) + gutters(
                    ls,
                    width as nat,
                    se + 1,
                    ctx_end + 1,
                ));
            }
        }
    }
}

/// Render diagnostic number `index` against the source lines (see
/// [`render_one_spec`]).
fn render_diag(lines: &Vec<Vec<char>>, d: &Diagnostic, cfg: &FeedbackConfig, index: usize) -> (r: String)
    requires
        render_ok(lines@.len() as nat, d@, *cfg),
    ensures
        r@ == render_one_spec(words_view(lines@), d@, *cfg, index as nat),
{
    let mut out = String::new();
    push_heading(&mut out, d, index);
    push_context(&mut out, lines, d, cfg);
    out.append("message: ");
    let mv = chars_of(d.message.as_str());
    let me = rskip_class(&mv, 0, mv.len(), CharClass::White);
    push_range(&mut out, &mv, 0, me);
    push_char(&mut out, '\n');
    proof {
        assert(class_pred(CharClass::White) == white_pred());
        assert(mv@.subrange(0, mv@.len() as int) == mv@);
    }
    match &d.goal_state_slot {
        Some(g) => {
            out.append("goal state:\n");
            let gv = chars_of(g.as_str());
            let ge = rskip_class(&gv, 0, gv.len(), CharClass::White);
            push_range(&mut out, &gv, 0, ge);
            push_char(&mut out, '\n');
            assert(gv@.subrange(0, gv@.len() as int) == gv@);
        },
        None => {},
    }
    out
}


/// A diagnostic rendering for the lines of a source given as string slices.
pub fn render_one(source_lines: &[&str], d: &Diagnostic, cfg: &FeedbackConfig, index: usize) -> (r: String)
    requires
        render_ok(source_lines@.len() as nat, d@, *cfg),
    ensures
        r@ == render_one_spec(source_lines@.map_values(|s: &str| s@), d@, *cfg, index as nat),
{
    let mut lines: Vec<Vec<char>> = Vec::new();
    let mut i: usize = 0;
    while i < source_lines.len()
        invariant
            i <= source_lines@.len(),
            words_view(lines@) == source_lines@.map_values(|s: &str| s@).take(i as int),
        decreases source_lines@.len() - i,
    {
        let c = chars_of(source_lines[i]);
        let ghost w0 = words_view(lines@);
        let ghost cv = c@;
        lines.push(c);
        assert(words_view(lines@) =~= w0.push(cv));
        assert(source_lines@.map_values(|s: &str| s@).take(i + 1) =~= source_lines@.map_values(|s: &str| s@).take(i as int).push(source_lines@[i as int]@));
        i = i + 1;
    }
    assert(source_lines@.map_values(|s: &str| s@).take(source_lines@.len() as int) == source_lines@.map_values(|s: &str| s@));
    render_diag(&lines, d, cfg, index)
}

/// The non-blank lines of `ls`, trailing whitespace dropped.
pub open spec fn kept_lines(ls: Seq<Seq<char>>) -> Seq<Seq<char>>
    decreases ls.len(),
{
    if ls.len() == 0 {
        Seq::empty()
    } else {
        let k = kept_lines(ls.drop_last());
        let t = rtrim(ls.last(), white_pred());
        if t.len() > 0 { k.push(t) } else { k }
    }
}

/// The bounded raw passthrough of unparsed output: its non-blank lines
/// (middle elided past the passthrough limit) under a heading, or a notice
/// that there was no output.
pub open spec fn passthrough_spec(raw: Seq<char>) -> Seq<char> {
    let kept = kept_lines(lines_spec(raw));
    if kept.len() == 0 {
        "[checker produced no output]\n"@
    } else {
        "[unrecognized checker output - raw passthrough, truncated]\n"@ + nl_lines(
            elide_spec(kept, RAW_PASSTHROUGH_LINES as nat),
        )
    }
}

/// Keep the checker's own words, bounded.
fn raw_passthrough(raw: &Vec<char>) -> (r: String)
    ensures
        r@ == passthrough_spec(raw@),
{
    let ws = line_windows(raw);
    let ghost ls = lines_spec(raw@);
    let mut kept: Vec<String> = Vec::new();
    let mut i: usize = 0;
    while i < ws.len()
        invariant
            ws@.len() == ls.len(),
            line_windows_of(raw@, ws@),
            ls == lines_spec(raw@),
            i <= ws@.len(),
            strs_view(kept@) == kept_lines(ls.take(i as int)),
        decreases ws@.len() - i,
    {
        let (a, b) = ws[i];
        proof {
            lemma_line_window(raw@, ws@, i as int);
        }
        let e = rskip_class(raw, a, b, CharClass::White);
        proof {
            assert(class_pred(CharClass::White) == white_pred());
            assert(ls.take(i + 1).drop_last() == ls.take(i as int));
            assert(ls.take(i + 1).last() == ls[i as int]);
        }
        if e > a {
            let ghost k0 = strs_view(kept@);
            kept.push(string_of_range(raw, a, e));
            assert(strs_view(kept@) == k0.push(raw@.subrange(a as int, e as int)));
        }
        i = i + 1;
    }
    assert(ls.take(ls.len() as int) == ls);
    if kept.len() == 0 {
        return owned("[checker produced no output]\n");
    }
    let mut out = owned("[unrecognized checker output - raw passthrough, truncated]\n");
    let el = elide(kept, RAW_PASSTHROUGH_LINES);
    push_nl_lines(&mut out, &el);
    out
}

/// The result of rendering: the prompt-ready text and the diagnostics behind
/// it.
#[derive(Debug, Clone, PartialEq, Eq)]
pub struct RenderedFeedback {
    /// The compact feedback text.
    pub text: String,
    /// Every diagnostic parsed, including those beyond `max_errors`.
    pub diagnostics: Vec<Diagnostic>,
    /// How many diagnostics were parsed but not rendered.
    pub omitted: usize,
    /// `false` when nothing parsed and `text` is the raw passthrough.
    pub parsed: bool,
}

/// How many of `n` diagnostics are rendered: at most `max_errors`, and at
/// least one.
pub open spec fn shown_count(n: nat, cfg: FeedbackConfig) -> nat {
    let cap: nat = if cfg.max_errors >= 1 { cfg.max_errors as nat } else { 1 };
    if n < cap { n } else { cap }
}

/// The renderings of the first `k` diagnostics, each after a blank line.
pub open spec fn rendered_upto(lines: Seq<Seq<char>>, ds: Seq<SDiag>, cfg: FeedbackConfig, k: int) -> Seq<char>
    decreases k,
{
    if k <= 0 {
        Seq::empty()
    } else {
        rendered_upto(lines, ds, cfg, k - 1) + seq!['\n'] + render_one_spec(lines, ds[k - 1], cfg, k as nat)
    }
}

/// The feedback text for parsed diagnostics: a count line, the shown
/// renderings, and the true number omitted when some are.
pub open spec fn feedback_text(system: FormalSystem, ds: Seq<SDiag>, lines: Seq<Seq<char>>, cfg: FeedbackConfig) -> Seq<char> {
    let shown = shown_count(ds.len(), cfg);
    let omitted = ds.len() - shown;
    system_tag(system) + " checker reported "@ + decimal(ds.len()) + " diagnostic(s):\n"@ + rendered_upto(
        lines,
        ds,
        cfg,
        shown as int,
    ) + if omitted > 0 {
        "\n... [Omitted "@ + decimal(omitted as nat) + " more errors] ...\n"@
    } else {
        Seq::empty()
    }
}

/// Whether [`render_feedback`] can run on these inputs: the output parses
/// (see [`parsable`]) and every shown diagnostic renders (see [`render_ok`]).
pub open spec fn feedback_ok(system: FormalSystem, raw: Seq<char>, source: Seq<char>, cfg: FeedbackConfig) -> bool {
    &&& parsable(system, raw)
    &&& forall|i: int| 0 <= i < shown_count(parse_diagnostics_spec(system, raw).len(), cfg) ==> render_ok(
        lines_spec(source).len(),
        #[trigger] parse_diagnostics_spec(system, raw)[i],
        cfg,
    )
}

/// The lines of `s` as character vectors.
fn source_lines_of(s: &str) -> (r: Vec<Vec<char>>)
    ensures
        words_view(r@) == lines_spec(s@),
{
    let v = chars_of(s);
    let ws = line_windows(&v);
    let ghost ls = lines_spec(v@);
    let mut out: Vec<Vec<char>> = Vec::new();
    let mut i: usize = 0;
    while i < ws.len()
        invariant
            ws@.len() == ls.len(),
            line_windows_of(v@, ws@),
            ls == lines_spec(v@),
            i <= ws@.len(),
            words_view(out@) == ls.take(i as int),
        decreases ws@.len() - i,
    {
        let (a, b) = ws[i];
        proof {
            lemma_line_window(v@, ws@, i as int);
        }
        let mut line: Vec<char> = Vec::new();
        extend_chars(&mut line, &v, a, b);
        let ghost w0 = words_view(out@);
        let ghost lv = line@;
        out.push(line);
        assert(words_view(out@) =~= w0.push(lv));
        assert(ls.take(i + 1) =~= ls.take(i as int).push(ls[i as int]));
        i = i + 1;
    }
    assert(ls.take(ls.len() as int) == ls);
    out
}

/// What [`render_feedback`] returns for these inputs: every parsed
/// diagnostic; when none parsed, the raw passthrough; otherwise the feedback
/// text and the number of diagnostics not rendered.
pub open spec fn feedback_holds(r: RenderedFeedback, system: FormalSystem, raw: Seq<char>, source: Seq<char>, cfg: FeedbackConfig) -> bool {
    let ds = parse_diagnostics_spec(system, raw);
    &&& diags_view(r.diagnostics@) == ds
    &&& r.parsed == (ds.len() > 0)
    &&& !r.parsed ==> r.text@ == passthrough_spec(raw) && r.omitted == 0
    &&& r.parsed ==> r.text@ == feedback_text(system, ds, lines_spec(source), cfg) && r.omitted == ds.len()
        - shown_count(ds.len(), cfg)
}

/// Render positional feedback for a failed check from the checker's output
/// `raw` and the submitted `source`. When nothing parses, the text is the
/// bounded raw passthrough. Otherwise it is a count line and the first
/// `max(max_errors, 1)` diagnostics rendered against the source, followed by
/// the true number omitted.
pub fn render_feedback(system: FormalSystem, raw: &str, source: &str, cfg: &FeedbackConfig) -> (r: RenderedFeedback)
    requires
        feedback_ok(system, raw@, source@, *cfg),
    ensures
        feedback_holds(r, system, raw@, source@, *cfg),
{
    let diagnostics = parse_diagnostics(system, raw);
    let ghost ds = diags_view(diagnostics@);
    if diagnostics.len() == 0 {
        let rv = chars_of(raw);
        return RenderedFeedback { text: raw_passthrough(&rv), diagnostics, omitted: 0, parsed: false };
    }
    let lines = source_lines_of(source);
    let cap = if cfg.max_errors >= 1 { cfg.max_errors } else { 1 };
    let total = diagnostics.len();
    let shown = if total < cap { total } else { cap };
    let omitted = total - shown;
    let mut out = owned(system.as_str());
    out.append(" checker reported ");
    push_decimal(&mut out, total);
    out.append(" diagnostic(s):\n");
    let ghost head = out@;
    let mut i: usize = 0;
    while i < shown
        invariant
            shown <= total == diagnostics@.len(),
            ds == diags_view(diagnostics@),
            ds == parse_diagnostics_spec(system, raw@),
            words_view(lines@) == lines_spec(source@),
            shown == shown_count(total as nat, *cfg),
            feedback_ok(system, raw@, source@, *cfg),
            i <= shown,
            out@ == head + rendered_upto(words_view(lines@), ds, *cfg, i as int),
        decreases shown - i,
    {
        push_char(&mut out, '\n');
        assert(ds[i as int] == diagnostics@[i as int]@);
        assert(render_ok(lines_spec(source@).len(), parse_diagnostics_spec(system, raw@)[i as int], *cfg));
        let one = render_diag(&lines, &diagnostics[i], cfg, i + 1);
        out.append(one.as_str());
        i = i + 1;
    }
    let ghost body = out@;
    if omitted > 0 {
        out.append("\n... [Omitted ");
        push_decimal(&mut out, omitted);
        out.append(" more errors] ...\n");
    }
    proof {
        let ls = lines_spec(source@);
        assert(body == system_tag(system) + " checker reported "@ + decimal(ds.len()) + " diagnostic(s):\n"@
            + rendered_upto(ls, ds, *cfg, shown_count(ds.len(), *cfg) as int));
        if omitted > 0 {
            assert(out@ == body + ("\n... [Omitted "@ + decimal(omitted as nat) + " more errors] ...\n"@));
        } else {
            assert(out@ == body + Seq::<char>::empty());
        }
    }
    RenderedFeedback { text: out, diagnostics, omitted, parsed: true }
}


/// [`span_spec`] computed.
fn span_of(n: usize, d: &Diagnostic) -> (r: Option<(usize, usize)>)
    ensures
        match r {
            Some((a, b)) => span_spec(n as nat, d@) == Some((a as int, b as int)),
            None => span_spec(n as nat, d@) is None,
        },
{
    match d.line {
        Some(l) => {
            if n == 0 {
                return None;
            }
            let d1 = if l == 0 { 0 } else { l - 1 };
            let li = if d1 < n - 1 { d1 } else { n - 1 };
            let e = match d.end_line {
                Some(e) => if e == 0 { 0 } else { e - 1 },
                None => li,
            };
            let se = if e < li { li } else if e > n - 1 { n - 1 } else { e };
            Some((li, se))
        },
        None => None,
    }
}

/// Whether [`render_feedback`] accepts these inputs (see [`feedback_ok`]).
pub fn can_render_feedback(system: FormalSystem, raw: &str, source: &str, cfg: &FeedbackConfig) -> (r: bool)
    ensures
        r == feedback_ok(system, raw@, source@, *cfg),
{
    if !can_parse(system, raw) {
        return false;
    }
    let ds = parse_diagnostics(system, raw);
    let n = source_lines_of(source).len();
    let cap = if cfg.max_errors >= 1 { cfg.max_errors } else { 1 };
    let shown = if ds.len() < cap { ds.len() } else { cap };
    let mut i: usize = 0;
    while i < shown
        invariant
            shown <= ds@.len(),
            diags_view(ds@) == parse_diagnostics_spec(system, raw@),
            n == lines_spec(source@).len(),
            shown == shown_count(ds@.len() as nat, *cfg),
            parsable(system, raw@),
            i <= shown,
            forall|j: int| 0 <= j < i ==> render_ok(n as nat, #[trigger] parse_diagnostics_spec(system, raw@)[j], *cfg),
        decreases shown - i,
    {
        assert(parse_diagnostics_spec(system, raw@)[i as int] == ds@[i as int]@);
        if let Some((_, se)) = span_of(n, &ds[i]) {
            if se > usize::MAX - cfg.context_lines_after {
                assert(!render_ok(n as nat, parse_diagnostics_spec(system, raw@)[i as int], *cfg));
                return false;
            }
        }
        i = i + 1;
    }
    true
}

// ---------------------------------------------------------------------------
// Laws
// ---------------------------------------------------------------------------

/// Rendering is a function of its inputs: two renderings of the same checker
/// output, source and configuration agree on text, diagnostics (in the
/// checker's order), count omitted and parsed flag.
pub proof fn lemma_feedback_deterministic(
    r1: RenderedFeedback,
    r2: RenderedFeedback,
    system: FormalSystem,
    raw: Seq<char>,
    source: Seq<char>,
    cfg: FeedbackConfig,
)
    requires
        feedback_holds(r1, system, raw, source, cfg),
        feedback_holds(r2, system, raw, source, cfg),
    ensures
        r1.text@ == r2.text@,
        diags_view(r1.diagnostics@) == diags_view(r2.diagnostics@),
        r1.omitted == r2.omitted,
        r1.parsed == r2.parsed,
{
}

/// The feedback text is never empty, and the omitted count is the true
/// number of parsed diagnostics beyond those rendered.
pub proof fn lemma_feedback_nonempty_and_counted(
    r: RenderedFeedback,
    system: FormalSystem,
    raw: Seq<char>,
    source: Seq<char>,
    cfg: FeedbackConfig,
)
    requires
        feedback_holds(r, system, raw, source, cfg),
    ensures
        r.text@.len() > 0,
        r.omitted + shown_count(diags_view(r.diagnostics@).len(), cfg) == r.diagnostics@.len() || !r.parsed,
        r.parsed ==> shown_count(r.diagnostics@.len() as nat, cfg) >= 1,
{
    reveal_strlit("[checker produced no output]\n");
    reveal_strlit("[unrecognized checker output - raw passthrough, truncated]\n");
    reveal_strlit(" checker reported ");
}

/// Eliding keeps a balanced head and tail: past the threshold the result has
/// `threshold` lines of the input plus the marker, the head being the first
/// `(threshold + 1) / 2` lines and the tail the last ones; at or under it, or
/// with a threshold of 0, the lines pass through unchanged.
pub proof fn lemma_elide_shape(lines: Seq<Seq<char>>, threshold: nat)
    ensures
        (threshold == 0 || lines.len() <= threshold) ==> elide_spec(lines, threshold) == lines,
        (threshold > 0 && lines.len() > threshold) ==> {
            let out = elide_spec(lines, threshold);
            let head = (threshold + 1) / 2;
            &&& out.len() == threshold + 1
            &&& out[head as int] == TRUNCATION_MARKER@
            &&& forall|i: int| 0 <= i < head ==> out[i] == lines[i]
            &&& forall|i: int| head < i <= threshold ==> out[i] == lines[lines.len() - (threshold + 1 - i)]
        },
{
}

/// The region a positioned diagnostic renders always lies within the source,
/// however far past its end the checker's positions point.
pub proof fn lemma_span_within_source(n_lines: nat, d: SDiag)
    ensures
        match span_spec(n_lines, d) {
            Some((li, se)) => 0 <= li <= se < n_lines,
            None => n_lines == 0 || d.line is None,
        },
{
}

/// When nothing parses and the output has at most the passthrough limit of
/// non-blank lines, every one of them is kept, in order.
pub proof fn lemma_passthrough_keeps_short_output(raw: Seq<char>)
    requires
        kept_lines(lines_spec(raw)).len() > 0,
        kept_lines(lines_spec(raw)).len() <= RAW_PASSTHROUGH_LINES,
    ensures
        passthrough_spec(raw) == "[unrecognized checker output - raw passthrough, truncated]\n"@ + nl_lines(
            kept_lines(lines_spec(raw)),
        ),
{
}

} // verus!
