//! Statement-change guard.
//!
//! Snapshot theorem/lemma/def headers of a Lean source before a prover round
//! trip and check that they survive it: a deleted or weakened declaration is
//! reported, and can be restored. Headers stop at `:=`, so definition BODIES
//! are snapshotted as well and any drift in them is reported too.
//!
//! Everything here works on the characters of the source (`Seq<char>`); each
//! exec function is proved against a spec function that says what it returns.
use vstd::prelude::*;
use crate::text::{
    char_utf8_len, chars_of, decimal, extend_chars, push_decimal, class_pred, contains_at, contains_spec, find_class, find_sub,
    find_sub_at, first_where, ident_char, in_class, is_white, join, lemma_first_where_at, lemma_first_where, lemma_join_push,
    lemma_ltrim_suffix, line_windows, lines_spec, ltrim, normalize_ws, normalize_ws_spec, owned,
    push_range, skip_class, starts_with_at, string_of, string_of_range, trim, trim_class,
    utf8_len, utf8_width, white_pred, word_list, words_view, CharClass,
};

verus! {

// ===========================================================================
// Comment stripping
// ===========================================================================

/// The comment-stripped text of `s[i..]`, scanning in the given state: inside
/// a `--` line comment or not, and the depth of nested `/- -/` block comments.
/// Every commented character becomes a space except `'\n'`, which is kept, so
/// positions and line structure survive.
pub open spec fn strip_from(s: Seq<char>, i: int, in_line: bool, depth: nat) -> Seq<char>
    decreases s.len() - i,
{
    if i < 0 || i >= s.len() {
        Seq::empty()
    } else {
        let c = s[i];
        let nx: Option<char> = if i + 1 < s.len() { Some(s[i + 1]) } else { None };
        if in_line {
            if c == '\n' {
                seq!['\n'] + strip_from(s, i + 1, false, depth)
            } else {
                seq![' '] + strip_from(s, i + 1, true, depth)
            }
        } else if depth > 0 {
            if c == '/' && nx == Some('-') {
                seq![' ', ' '] + strip_from(s, i + 2, false, depth + 1)
            } else if c == '-' && nx == Some('/') {
                seq![' ', ' '] + strip_from(s, i + 2, false, (depth - 1) as nat)
            } else {
                seq![if c == '\n' { '\n' } else { ' ' }] + strip_from(s, i + 1, false, depth)
            }
        } else if c == '-' && nx == Some('-') {
            seq![' ', ' '] + strip_from(s, i + 2, true, 0)
        } else if c == '/' && nx == Some('-') {
            seq![' ', ' '] + strip_from(s, i + 2, false, 1)
        } else {
            seq![c] + strip_from(s, i + 1, false, 0)
        }
    }
}

/// `s` with its Lean comments (`-- …` to end of line, nested `/- … -/`)
/// blanked out.
pub open spec fn strip_spec(s: Seq<char>) -> Seq<char> {
    strip_from(s, 0, false, 0)
}

/// Blank out the Lean comments of `v`.
pub fn strip_comment_chars(v: &Vec<char>) -> (r: Vec<char>)
    ensures
        r@ == strip_spec(v@),
{
    let n = v.len();
    let mut out: Vec<char> = Vec::new();
    let mut i: usize = 0;
    let mut in_line = false;
    let mut depth: usize = 0;
    assert(out@ + strip_from(v@, 0, false, 0) == strip_from(v@, 0, false, 0));
    while i < n
        invariant
            n == v@.len(),
            i <= n,
            depth <= i,
            out@ + strip_from(v@, i as int, in_line, depth as nat) == strip_spec(v@),
        decreases n - i,
    {
        let c = v[i];
        let nx: Option<char> = if i + 1 < n { Some(v[i + 1]) } else { None };
        let ghost before = out@;
        let ghost i0 = i;
        let ghost il0 = in_line;
        let ghost d0 = depth;
        if in_line {
            if c == '\n' {
                in_line = false;
                out.push('\n');
            } else {
                out.push(' ');
            }
            i = i + 1;
        } else if depth > 0 {
            if c == '/' && nx == Some('-') {
                depth = depth + 1;
                out.push(' ');
                out.push(' ');
                i = i + 2;
            } else if c == '-' && nx == Some('/') {
                depth = depth - 1;
                out.push(' ');
                out.push(' ');
                i = i + 2;
            } else {
                out.push(if c == '\n' { '\n' } else { ' ' });
                i = i + 1;
            }
        } else if c == '-' && nx == Some('-') {
            in_line = true;
            out.push(' ');
            out.push(' ');
            i = i + 2;
        } else if c == '/' && nx == Some('-') {
            depth = 1;
            out.push(' ');
            out.push(' ');
            i = i + 2;
        } else {
            out.push(c);
            i = i + 1;
        }
        proof {
            let delta = out@.subrange(before.len() as int, out@.len() as int);
            assert(out@ == before + delta);
            assert(strip_from(v@, i0 as int, il0, d0 as nat) == delta + strip_from(
                v@,
                i as int,
                in_line,
                depth as nat,
            ));
            assert(before + (delta + strip_from(v@, i as int, in_line, depth as nat)) == out@
                + strip_from(v@, i as int, in_line, depth as nat));
        }
    }
    assert(out@ + Seq::<char>::empty() == out@);
    out
}


/// Blank out the Lean comments of `src`.
pub fn strip_comments(src: &str) -> (r: String)
    ensures
        r@ == strip_spec(src@),
{
    let v = chars_of(src);
    let out = strip_comment_chars(&v);
    string_of(&out)
}

// ===========================================================================
// Theorem headers
// ===========================================================================

/// A `theorem` / `lemma` / `def` header: its keyword, name and signature (the
/// text between the name and `:=`, whitespace-normalized).
#[derive(Debug, Clone, PartialEq, Eq)]
pub struct TheoremHeader {
    pub kind: String,
    pub name: String,
    pub signature: String,
}

/// The model of a [`TheoremHeader`].
pub ghost struct SHeader {
    pub kind: Seq<char>,
    pub name: Seq<char>,
    pub signature: Seq<char>,
}

impl View for TheoremHeader {
    type V = SHeader;

    open spec fn view(&self) -> SHeader {
        SHeader { kind: self.kind@, name: self.name@, signature: self.signature@ }
    }
}

/// The models of a sequence of headers.
pub open spec fn headers_view(hs: Seq<TheoremHeader>) -> Seq<SHeader> {
    hs.map_values(|h: TheoremHeader| h@)
}

/// The models of a sequence of strings.
pub open spec fn strs_view(v: Seq<String>) -> Seq<Seq<char>> {
    v.map_values(|s: String| s@)
}

/// What follows keyword `kw` at the start of `line`, with leading whitespace
/// dropped, when that is not empty.
pub open spec fn keyword_rest(line: Seq<char>, kw: Seq<char>) -> Option<Seq<char>> {
    if kw.len() <= line.len() && line.take(kw.len() as int) == kw {
        let rest = ltrim(line.skip(kw.len() as int), white_pred());
        if rest.len() > 0 {
            Some(rest)
        } else {
            None
        }
    } else {
        None
    }
}

/// The header keyword `line` starts with (`theorem`, `lemma` or `def`, tried
/// in that order; a bare prefix is enough, so `definition` reads as `def`) and
/// the text after it.
pub open spec fn decl_prefix_spec(line: Seq<char>) -> Option<(Seq<char>, Seq<char>)> {
    match keyword_rest(line, "theorem"@) {
        Some(r) => Some(("theorem"@, r)),
        None => match keyword_rest(line, "lemma"@) {
            Some(r) => Some(("lemma"@, r)),
            None => match keyword_rest(line, "def"@) {
                Some(r) => Some(("def"@, r)),
                None => None,
            },
        },
    }
}

/// The name and signature in the text after a header keyword: the name runs
/// to the first whitespace, `(` or `:`; the signature is what follows, up to
/// the first `:=`, trimmed. `None` when either would be empty.
pub open spec fn name_sig_spec(rest: Seq<char>) -> Option<(Seq<char>, Seq<char>)> {
    match first_where(rest, class_pred(CharClass::NameEnd)) {
        None => None,
        Some(e) => {
            let name = trim(rest.take(e), white_pred());
            let tail = rest.skip(e);
            let upto = match find_sub(tail, ":="@) {
                Some(k) => tail.take(k),
                None => tail,
            };
            let sig = trim(upto, white_pred());
            if e == 0 || name.len() == 0 || sig.len() == 0 {
                None
            } else {
                Some((name, sig))
            }
        },
    }
}

/// The header one line of (comment-stripped) source declares, if any.
pub open spec fn header_of_line(line: Seq<char>) -> Option<SHeader> {
    match decl_prefix_spec(trim(line, white_pred())) {
        Some((kind, rest)) => match name_sig_spec(rest) {
            Some((name, sig)) => Some(SHeader { kind, name, signature: normalize_ws_spec(sig) }),
            None => None,
        },
        None => None,
    }
}

/// The headers declared by a sequence of lines, in order.
pub open spec fn headers_of_lines(ls: Seq<Seq<char>>) -> Seq<SHeader>
    decreases ls.len(),
{
    if ls.len() == 0 {
        Seq::empty()
    } else {
        headers_of_lines(ls.drop_last()) + match header_of_line(ls.last()) {
            Some(h) => seq![h],
            None => Seq::empty(),
        }
    }
}

/// The headers of a Lean source: those of its comment-stripped lines.
pub open spec fn snapshot_headers_spec(src: Seq<char>) -> Seq<SHeader> {
    headers_of_lines(lines_spec(strip_spec(src)))
}

/// Where the text after keyword `kw` starts in the window `v[lo..hi]`.
fn keyword_rest_at(v: &Vec<char>, lo: usize, hi: usize, kw: &str) -> (r: Option<usize>)
    requires
        lo <= hi <= v@.len(),
    ensures
        match r {
            Some(p) => lo <= p <= hi && keyword_rest(v@.subrange(lo as int, hi as int), kw@) == Some(
                v@.subrange(p as int, hi as int),
            ),
            None => keyword_rest(v@.subrange(lo as int, hi as int), kw@) is None,
        },
{
    let w = chars_of(kw);
    if !starts_with_at(v, lo, hi, &w) {
        return None;
    }
    let p = skip_class(v, lo + w.len(), hi, CharClass::White);
    proof {
        assert(v@.subrange(lo as int, hi as int).skip(w@.len() as int) == v@.subrange(
            lo + w@.len(),
            hi as int,
        ));
        assert(class_pred(CharClass::White) == white_pred());
    }
    if p == hi {
        None
    } else {
        Some(p)
    }
}

/// [`decl_prefix_spec`] on the window `v[lo..hi]`: the keyword and where the
/// rest starts.
fn decl_prefix(v: &Vec<char>, lo: usize, hi: usize) -> (r: Option<(String, usize)>)
    requires
        lo <= hi <= v@.len(),
    ensures
        match r {
            Some((k, p)) => lo <= p <= hi && decl_prefix_spec(v@.subrange(lo as int, hi as int)) == Some(
                (k@, v@.subrange(p as int, hi as int)),
            ),
            None => decl_prefix_spec(v@.subrange(lo as int, hi as int)) is None,
        },
{
    if let Some(p) = keyword_rest_at(v, lo, hi, "theorem") {
        return Some((owned("theorem"), p));
    }
    if let Some(p) = keyword_rest_at(v, lo, hi, "lemma") {
        return Some((owned("lemma"), p));
    }
    if let Some(p) = keyword_rest_at(v, lo, hi, "def") {
        return Some((owned("def"), p));
    }
    None
}

/// [`name_sig_spec`] on the window `v[lo..hi]`, as two windows of `v`.
fn name_sig(v: &Vec<char>, lo: usize, hi: usize) -> (r: Option<((usize, usize), (usize, usize))>)
    requires
        lo <= hi <= v@.len(),
    ensures
        match r {
            Some(((na, nb), (sa, sb))) => na <= nb <= v@.len() && sa <= sb <= v@.len()
                && name_sig_spec(v@.subrange(lo as int, hi as int)) == Some(
                (v@.subrange(na as int, nb as int), v@.subrange(sa as int, sb as int)),
            ),
            None => name_sig_spec(v@.subrange(lo as int, hi as int)) is None,
        },
{
    let ghost rest = v@.subrange(lo as int, hi as int);
    let e = find_class(v, lo, hi, CharClass::NameEnd);
    if e == hi || e == lo {
        return None;
    }
    let (na, nb) = trim_class(v, lo, e, CharClass::White);
    let assign = chars_of(":=");
    let end = match find_sub_at(v, e, hi, &assign) {
        Some(k) => e + k,
        None => hi,
    };
    let (sa, sb) = trim_class(v, e, end, CharClass::White);
    proof {
        assert(class_pred(CharClass::White) == white_pred());
        assert(rest.take(e - lo) == v@.subrange(lo as int, e as int));
        assert(rest.skip(e - lo) == v@.subrange(e as int, hi as int));
        let tail = v@.subrange(e as int, hi as int);
        match find_sub(tail, ":="@) {
            Some(k) => {
                assert(tail.take(k) == v@.subrange(e as int, end as int));
            },
            None => {},
        }
    }
    if na == nb || sa == sb {
        return None;
    }
    Some(((na, nb), (sa, sb)))
}

/// The header declared by the line window `v[lo..hi]`, if any.
fn header_at(v: &Vec<char>, lo: usize, hi: usize) -> (r: Option<TheoremHeader>)
    requires
        lo <= hi <= v@.len(),
    ensures
        match r {
            Some(h) => header_of_line(v@.subrange(lo as int, hi as int)) == Some(h@),
            None => header_of_line(v@.subrange(lo as int, hi as int)) is None,
        },
{
    let (ta, tb) = trim_class(v, lo, hi, CharClass::White);
    proof {
        assert(class_pred(CharClass::White) == white_pred());
    }
    let (kind, p) = match decl_prefix(v, ta, tb) {
        Some(x) => x,
        None => return None,
    };
    let ((na, nb), (sa, sb)) = match name_sig(v, p, tb) {
        Some(x) => x,
        None => return None,
    };
    let sig = normalize_ws(v, sa, sb);
    Some(TheoremHeader { kind, name: string_of_range(v, na, nb), signature: string_of(&sig) })
}

/// Extract the `theorem` / `lemma` / `def` headers of a Lean source, one per
/// comment-stripped line that declares one, in order.
pub fn snapshot_headers(lean_src: &str) -> (r: Vec<TheoremHeader>)
    ensures
        headers_view(r@) == snapshot_headers_spec(lean_src@),
{
    let src = chars_of(lean_src);
    let v = strip_comment_chars(&src);
    let ws = line_windows(&v);
    let ghost ls = lines_spec(v@);
    let mut out: Vec<TheoremHeader> = Vec::new();
    let mut i: usize = 0;
    while i < ws.len()
        invariant
            ws@.len() == ls.len(),
            ls == lines_spec(v@),
            v@ == strip_spec(lean_src@),
            forall|j: int| 0 <= j < ws@.len() ==> #[trigger] ws@[j].0 <= ws@[j].1 <= v@.len()
                && v@.subrange(ws@[j].0 as int, ws@[j].1 as int) == ls[j],
            i <= ws@.len(),
            headers_view(out@) == headers_of_lines(ls.take(i as int)),
        decreases ws@.len() - i,
    {
        let (a, b) = ws[i];
        let h = header_at(&v, a, b);
        let ghost before = out@;
        proof {
            assert(ls.take(i + 1).drop_last() == ls.take(i as int));
            assert(ls.take(i + 1).last() == ls[i as int]);
        }
        match h {
            Some(h) => {
                out.push(h);
                assert(headers_view(out@) == headers_view(before).push(out@.last()@));
            },
            None => {
                assert(headers_view(out@) == headers_view(before) + Seq::<SHeader>::empty());
            },
        }
        i = i + 1;
    }
    assert(ls.take(ls.len() as int) == ls);
    out
}


// ===========================================================================
// Reports
// ===========================================================================

/// One definition-shaped declaration, header and body.
#[derive(Debug, Clone, PartialEq, Eq)]
pub struct DefinitionBody {
    /// `def`, `abbrev`, `instance`, `structure`, `class` or `inductive`.
    pub kind: String,
    /// The declared name; an anonymous declaration gets a positional key.
    pub name: String,
    /// The whole declaration text, comment-stripped and whitespace-normalized.
    pub text: String,
}

/// The model of a [`DefinitionBody`].
pub ghost struct SDef {
    pub kind: Seq<char>,
    pub name: Seq<char>,
    pub text: Seq<char>,
}

impl View for DefinitionBody {
    type V = SDef;

    open spec fn view(&self) -> SDef {
        SDef { kind: self.kind@, name: self.name@, text: self.text@ }
    }
}

/// The models of a sequence of definitions.
pub open spec fn defs_view(ds: Seq<DefinitionBody>) -> Seq<SDef> {
    ds.map_values(|d: DefinitionBody| d@)
}

/// Result of comparing the definition bodies of two sources.
#[derive(Debug, Clone, PartialEq, Eq)]
pub struct DefinitionDriftReport {
    pub preserved: bool,
    pub before: Vec<DefinitionBody>,
    pub after: Vec<DefinitionBody>,
    /// Definitions present on both sides whose text or kind differs.
    pub changed: Vec<String>,
    /// Definitions present before and absent after.
    pub removed: Vec<String>,
    /// Names declared more than once on either side.
    pub ambiguous: Vec<String>,
}

/// Whether `r` is the empty report: nothing captured, nothing drifted.
pub open spec fn is_empty_drift(r: DefinitionDriftReport) -> bool {
    &&& r.preserved
    &&& r.before@.len() == 0
    &&& r.after@.len() == 0
    &&& r.changed@.len() == 0
    &&& r.removed@.len() == 0
    &&& r.ambiguous@.len() == 0
}

impl Default for DefinitionDriftReport {
    /// The empty report: nothing was captured, so nothing drifted.
    fn default() -> (r: Self)
        ensures
            is_empty_drift(r),
    {
        DefinitionDriftReport {
            preserved: true,
            before: Vec::new(),
            after: Vec::new(),
            changed: Vec::new(),
            removed: Vec::new(),
            ambiguous: Vec::new(),
        }
    }
}

/// Outcome of comparing the headers (and, for a source round trip, the
/// definitions) before and after.
#[derive(Debug, Clone, PartialEq, Eq)]
pub struct StatementGuardReport {
    pub preserved: bool,
    pub before: Vec<TheoremHeader>,
    pub after: Vec<TheoremHeader>,
    pub missing: Vec<String>,
    pub weakened: Vec<String>,
    /// Definition-body drift; empty for a header-only comparison.
    pub definitions: DefinitionDriftReport,
}

// ===========================================================================
// Header comparison
// ===========================================================================

/// Whether signature `actual` still covers `expected`: after normalizing
/// whitespace they are equal, or one contains the other.
pub open spec fn covers_spec(expected: Seq<char>, actual: Seq<char>) -> bool {
    let e = normalize_ws_spec(expected);
    let a = normalize_ws_spec(actual);
    e == a || contains_spec(a, e) || contains_spec(e, a)
}

/// The last header in `hs` named `name` (a later duplicate shadows an
/// earlier one).
pub open spec fn lookup_last(hs: Seq<SHeader>, name: Seq<char>) -> Option<SHeader>
    decreases hs.len(),
{
    if hs.len() == 0 {
        None
    } else if hs.last().name == name {
        Some(hs.last())
    } else {
        lookup_last(hs.drop_last(), name)
    }
}

/// Names of the `before` headers with no header of that name `after`, in
/// order.
pub open spec fn missing_spec(before: Seq<SHeader>, after: Seq<SHeader>) -> Seq<Seq<char>>
    decreases before.len(),
{
    if before.len() == 0 {
        Seq::empty()
    } else {
        missing_spec(before.drop_last(), after) + if lookup_last(after, before.last().name) is None {
            seq![before.last().name]
        } else {
            Seq::empty()
        }
    }
}

/// Names of the `before` headers whose signature the header of that name
/// `after` no longer covers, in order.
pub open spec fn weakened_spec(before: Seq<SHeader>, after: Seq<SHeader>) -> Seq<Seq<char>>
    decreases before.len(),
{
    if before.len() == 0 {
        Seq::empty()
    } else {
        weakened_spec(before.drop_last(), after) + match lookup_last(after, before.last().name) {
            Some(a) => if covers_spec(before.last().signature, a.signature) {
                Seq::empty()
            } else {
                seq![before.last().name]
            },
            None => Seq::empty(),
        }
    }
}

/// Whether a header report says what [`headers_preserved`] computes from
/// `before` and `after`.
pub open spec fn header_report_holds(r: StatementGuardReport, before: Seq<SHeader>, after: Seq<SHeader>) -> bool {
    &&& headers_view(r.before@) == before
    &&& headers_view(r.after@) == after
    &&& strs_view(r.missing@) == missing_spec(before, after)
    &&& strs_view(r.weakened@) == weakened_spec(before, after)
}

/// A copy of `h`.
pub fn clone_header(h: &TheoremHeader) -> (r: TheoremHeader)
    ensures
        r@ == h@,
{
    TheoremHeader { kind: h.kind.clone(), name: h.name.clone(), signature: h.signature.clone() }
}

/// A copy of `hs`.
pub fn clone_headers(hs: &[TheoremHeader]) -> (r: Vec<TheoremHeader>)
    ensures
        headers_view(r@) == headers_view(hs@),
{
    let mut out: Vec<TheoremHeader> = Vec::new();
    let mut i: usize = 0;
    while i < hs.len()
        invariant
            i <= hs@.len(),
            out@.len() == i,
            forall|j: int| 0 <= j < i ==> #[trigger] out@[j]@ == hs@[j]@,
        decreases hs@.len() - i,
    {
        out.push(clone_header(&hs[i]));
        i = i + 1;
    }
    assert(headers_view(out@) =~= headers_view(hs@));
    out
}

/// Whether signature `actual` still covers `expected` (see [`covers_spec`]).
pub fn signature_covers(expected: &str, actual: &str) -> (r: bool)
    ensures
        r == covers_spec(expected@, actual@),
{
    let ev = chars_of(expected);
    let av = chars_of(actual);
    let e = normalize_ws(&ev, 0, ev.len());
    let a = normalize_ws(&av, 0, av.len());
    proof {
        assert(ev@.subrange(0, ev@.len() as int) == ev@);
        assert(av@.subrange(0, av@.len() as int) == av@);
        assert(a@.subrange(0, a@.len() as int) == a@);
        assert(e@.subrange(0, e@.len() as int) == e@);
    }
    crate::text::chars_eq(&e, &a) || contains_at(&a, 0, a.len(), &e) || contains_at(&e, 0, e.len(), &a)
}

/// The index of the last header in `hs` named `name`.
fn find_last_named(hs: &[TheoremHeader], name: &String) -> (r: Option<usize>)
    ensures
        match r {
            Some(k) => k < hs@.len() && lookup_last(headers_view(hs@), name@) == Some(hs@[k as int]@),
            None => lookup_last(headers_view(hs@), name@) is None,
        },
{
    let mut i: usize = hs.len();
    assert(headers_view(hs@).take(i as int) == headers_view(hs@));
    while i > 0
        invariant
            i <= hs@.len(),
            lookup_last(headers_view(hs@), name@) == lookup_last(headers_view(hs@).take(i as int), name@),
        decreases i,
    {
        let ghost pre = headers_view(hs@).take(i as int);
        assert(pre.last() == hs@[i - 1]@);
        assert(pre.drop_last() == headers_view(hs@).take(i - 1));
        if hs[i - 1].name == *name {
            return Some(i - 1);
        }
        i = i - 1;
    }
    None
}

/// Compare header snapshots: every `before` header must still be declared
/// `after` (else it is missing) with a signature that covers the original
/// (else it is weakened). `preserved` is whether neither list has an entry;
/// the definition report is empty.
pub fn headers_preserved(before: &[TheoremHeader], after: &[TheoremHeader]) -> (r: StatementGuardReport)
    ensures
        header_report_holds(r, headers_view(before@), headers_view(after@)),
        r.preserved == (r.missing@.len() == 0 && r.weakened@.len() == 0),
        is_empty_drift(r.definitions),
{
    let ghost bv = headers_view(before@);
    let ghost av = headers_view(after@);
    let mut missing: Vec<String> = Vec::new();
    let mut weakened: Vec<String> = Vec::new();
    let mut i: usize = 0;
    while i < before.len()
        invariant
            i <= before@.len(),
            bv == headers_view(before@),
            av == headers_view(after@),
            strs_view(missing@) == missing_spec(bv.take(i as int), av),
            strs_view(weakened@) == weakened_spec(bv.take(i as int), av),
        decreases before@.len() - i,
    {
        let h = &before[i];
        let ghost m0 = strs_view(missing@);
        let ghost w0 = strs_view(weakened@);
        proof {
            assert(bv.take(i + 1).drop_last() == bv.take(i as int));
            assert(bv.take(i + 1).last() == h@);
        }
        match find_last_named(after, &h.name) {
            None => {
                missing.push(h.name.clone());
                assert(strs_view(missing@) == m0.push(h.name@));
                assert(strs_view(weakened@) == w0 + Seq::<Seq<char>>::empty());
            },
            Some(k) => {
                assert(strs_view(missing@) == m0 + Seq::<Seq<char>>::empty());
                if !signature_covers(h.signature.as_str(), after[k].signature.as_str()) {
                    weakened.push(h.name.clone());
                    assert(strs_view(weakened@) == w0.push(h.name@));
                } else {
                    assert(strs_view(weakened@) == w0 + Seq::<Seq<char>>::empty());
                }
            },
        }
        i = i + 1;
    }
    proof {
        assert(bv.take(before@.len() as int) == bv);
    }
    let preserved = missing.len() == 0 && weakened.len() == 0;
    StatementGuardReport {
        preserved,
        before: clone_headers(before),
        after: clone_headers(after),
        missing,
        weakened,
        definitions: DefinitionDriftReport::default(),
    }
}


// ===========================================================================
// Definition bodies
// ===========================================================================

/// Declaration forms whose body carries meaning and must not drift. Theorem
/// bodies are proofs, which a round trip is meant to change.
pub open spec fn definition_kinds() -> Seq<Seq<char>> {
    seq!["def"@, "abbrev"@, "instance"@, "structure"@, "class"@, "inductive"@]
}

/// Keywords that begin a new top-level item and so end the body before them.
pub open spec fn decl_starters() -> Seq<Seq<char>> {
    seq![
        "theorem"@, "lemma"@, "def"@, "abbrev"@, "instance"@, "structure"@, "class"@,
        "inductive"@, "example"@, "axiom"@, "opaque"@, "namespace"@, "section"@, "end"@,
        "open"@, "import"@, "variable"@, "variables"@, "universe"@, "macro"@,
        "macro_rules"@, "notation"@, "syntax"@, "elab"@, "set_option"@, "attribute"@,
        "mutual"@, "initialize"@,
    ]
}

/// Modifiers that may stand before a declaration keyword.
pub open spec fn decl_modifiers() -> Seq<Seq<char>> {
    seq![
        "private"@, "protected"@, "noncomputable"@, "partial"@, "unsafe"@, "scoped"@,
        "local"@, "nonrec"@,
    ]
}

/// Whether `text` begins with `word` followed by end of text or a character
/// that cannot continue an identifier (so `definition` is not `def`).
pub open spec fn starts_with_word_spec(text: Seq<char>, word: Seq<char>) -> bool {
    &&& word.len() <= text.len()
    &&& text.take(word.len() as int) == word
    &&& (text.len() == word.len() || !ident_char(text[word.len() as int]))
}

/// The first of `ws` that `text` starts with as a word.
pub open spec fn first_word_of(text: Seq<char>, ws: Seq<Seq<char>>) -> Option<Seq<char>>
    decreases ws.len(),
{
    if ws.len() == 0 {
        None
    } else if starts_with_word_spec(text, ws[0]) {
        Some(ws[0])
    } else {
        first_word_of(text, ws.drop_first())
    }
}

/// `line` without leading whitespace, `@[…]` attributes and modifier keywords.
/// An attribute whose `]` is missing stops the stripping.
pub open spec fn strip_mods_spec(line: Seq<char>) -> Seq<char>
    decreases line.len(),
{
    let rest = ltrim(line, white_pred());
    proof { lemma_ltrim_suffix(line, white_pred()); }
    if rest.len() >= 2 && rest[0] == '@' && rest[1] == '[' {
        let after = rest.skip(2);
        match first_where(after, class_pred(CharClass::Only(']'))) {
            Some(idx) => {
                proof { lemma_first_where(after, class_pred(CharClass::Only(']'))); }
                if 0 <= idx < after.len() {
                    strip_mods_spec(after.skip(idx + 1))
                } else {
                    rest
                }
            },
            None => rest,
        }
    } else {
        match first_word_of(rest, decl_modifiers()) {
            Some(m) => if 0 < m.len() <= rest.len() {
                strip_mods_spec(rest.skip(m.len() as int))
            } else {
                rest
            },
            None => rest,
        }
    }
}

/// The name declared by `head` after a keyword of `kl` characters: the
/// identifier characters after it, or `None` for an anonymous declaration.
pub open spec fn name_after(head: Seq<char>, kl: nat) -> Option<Seq<char>> {
    let rest = ltrim(head.skip(kl as int), white_pred());
    let k = match first_where(rest, class_pred(CharClass::NonIdent)) {
        Some(k) => k,
        None => rest.len() as int,
    };
    if k == 0 {
        None
    } else {
        Some(rest.take(k))
    }
}

/// The name declared by `head` after keyword `kind`, or `None` for an
/// anonymous declaration.
pub open spec fn decl_name_spec(head: Seq<char>, kind: Seq<char>) -> Option<Seq<char>> {
    name_after(head, kind.len())
}

/// The indentation of `line` in bytes, as `str::len` counts them.
pub open spec fn indent_of(line: Seq<char>) -> nat {
    utf8_width(line.take(line.len() - ltrim(line, white_pred()).len()))
}

/// Whether `text` begins with `word` as a word.
pub fn starts_with_word(text: &str, word: &str) -> (r: bool)
    ensures
        r == starts_with_word_spec(text@, word@),
{
    let v = chars_of(text);
    let w = chars_of(word);
    let r = starts_with_word_at(&v, 0, v.len(), &w);
    assert(v@.subrange(0, v@.len() as int) == v@);
    r
}

/// [`starts_with_word_spec`] on the window `v[lo..hi]`.
fn starts_with_word_at(v: &Vec<char>, lo: usize, hi: usize, w: &Vec<char>) -> (r: bool)
    requires
        lo <= hi <= v@.len(),
    ensures
        r == starts_with_word_spec(v@.subrange(lo as int, hi as int), w@),
{
    if !starts_with_at(v, lo, hi, w) {
        return false;
    }
    let k = lo + w.len();
    if k == hi {
        return true;
    }
    let nonident = crate::text::class_has(CharClass::NonIdent, v[k]);
    assert(v@.subrange(lo as int, hi as int)[w@.len() as int] == v@[k as int]);
    nonident
}

/// The index in `ws` of the first word the window `v[lo..hi]` starts with.
fn first_word_at(v: &Vec<char>, lo: usize, hi: usize, ws: &Vec<Vec<char>>) -> (r: Option<usize>)
    requires
        lo <= hi <= v@.len(),
    ensures
        match r {
            Some(k) => k < ws@.len() && first_word_of(v@.subrange(lo as int, hi as int), words_view(ws@))
                == Some(ws@[k as int]@),
            None => first_word_of(v@.subrange(lo as int, hi as int), words_view(ws@)) is None,
        },
{
    let ghost text = v@.subrange(lo as int, hi as int);
    let mut k: usize = 0;
    assert(words_view(ws@).skip(0) == words_view(ws@));
    while k < ws.len()
        invariant
            k <= ws@.len(),
            text == v@.subrange(lo as int, hi as int),
            lo <= hi <= v@.len(),
            first_word_of(text, words_view(ws@)) == first_word_of(text, words_view(ws@).skip(k as int)),
        decreases ws@.len() - k,
    {
        let ghost rest = words_view(ws@).skip(k as int);
        assert(rest[0] == ws@[k as int]@);
        assert(rest.drop_first() == words_view(ws@).skip(k + 1));
        if starts_with_word_at(v, lo, hi, &ws[k]) {
            return Some(k);
        }
        k = k + 1;
    }
    None
}

/// [`definition_kinds`] as character vectors.
fn definition_kind_words() -> (r: Vec<Vec<char>>)
    ensures
        words_view(r@) == definition_kinds(),
{
    let r = word_list(&["def", "abbrev", "instance", "structure", "class", "inductive"]);
    assert(words_view(r@) =~= definition_kinds());
    r
}

/// [`decl_starters`] as character vectors.
fn decl_starter_words() -> (r: Vec<Vec<char>>)
    ensures
        words_view(r@) == decl_starters(),
{
    let r = word_list(
        &[
            "theorem", "lemma", "def", "abbrev", "instance", "structure", "class", "inductive",
            "example", "axiom", "opaque", "namespace", "section", "end", "open", "import",
            "variable", "variables", "universe", "macro", "macro_rules", "notation", "syntax",
            "elab", "set_option", "attribute", "mutual", "initialize",
        ],
    );
    assert(words_view(r@) =~= decl_starters());
    r
}

/// [`decl_modifiers`] as character vectors.
fn decl_modifier_words() -> (r: Vec<Vec<char>>)
    ensures
        words_view(r@) == decl_modifiers(),
{
    let r = word_list(
        &["private", "protected", "noncomputable", "partial", "unsafe", "scoped", "local", "nonrec"],
    );
    assert(words_view(r@) =~= decl_modifiers());
    r
}

/// Where [`strip_mods_spec`] leaves the window `v[lo..hi]`.
fn strip_decl_modifiers(v: &Vec<char>, lo: usize, hi: usize, mods: &Vec<Vec<char>>) -> (r: usize)
    requires
        lo <= hi <= v@.len(),
        words_view(mods@) == decl_modifiers(),
    ensures
        lo <= r <= hi,
        v@.subrange(r as int, hi as int) == strip_mods_spec(v@.subrange(lo as int, hi as int)),
{
    let mut p: usize = lo;
    loop
        invariant
            lo <= p <= hi <= v@.len(),
            words_view(mods@) == decl_modifiers(),
            strip_mods_spec(v@.subrange(lo as int, hi as int)) == strip_mods_spec(v@.subrange(p as int, hi as int)),
        decreases hi - p,
    {
        let q = skip_class(v, p, hi, CharClass::White);
        let ghost line = v@.subrange(p as int, hi as int);
        let ghost rest = v@.subrange(q as int, hi as int);
        assert(class_pred(CharClass::White) == white_pred());
        assert(ltrim(line, white_pred()) == rest);
        if hi - q >= 2 && v[q] == '@' && v[q + 1] == '[' {
            assert(rest[0] == v@[q as int] && rest[1] == v@[q + 1]);
            let c = find_class(v, q + 2, hi, CharClass::Only(']'));
            assert(rest.skip(2) == v@.subrange(q + 2, hi as int));
            if c == hi {
                return q;
            }
            assert(rest.skip(2).skip(c - (q + 2) + 1) == v@.subrange(c + 1, hi as int));
            p = c + 1;
        } else {
            assert(!(rest.len() >= 2 && rest[0] == '@' && rest[1] == '['));
            match first_word_at(v, q, hi, mods) {
                Some(k) => {
                    let m = mods[k].len();
                    proof { lemma_first_word_of(rest, decl_modifiers()); }
                    if m == 0 {
                        return q;
                    }
                    assert(rest.skip(m as int) == v@.subrange(q + m, hi as int));
                    if q + m == p {
                        return q;
                    }
                    p = q + m;
                },
                None => {
                    return q;
                },
            }
        }
    }
}

/// What [`first_word_of`] finds is one of the words, and `text` starts with it.
proof fn lemma_first_word_of(text: Seq<char>, ws: Seq<Seq<char>>)
    ensures
        match first_word_of(text, ws) {
            Some(w) => starts_with_word_spec(text, w) && ws.contains(w),
            None => forall|i: int| 0 <= i < ws.len() ==> !starts_with_word_spec(text, #[trigger] ws[i]),
        },
    decreases ws.len(),
{
    if ws.len() > 0 {
        lemma_first_word_of(text, ws.drop_first());
        if !starts_with_word_spec(text, ws[0]) {
            if let Some(w) = first_word_of(text, ws.drop_first()) {
                let j = choose|j: int| 0 <= j < ws.drop_first().len() && ws.drop_first()[j] == w;
                assert(ws[j + 1] == w);
            } else {
                assert forall|i: int| 0 <= i < ws.len() implies !starts_with_word_spec(text, #[trigger] ws[i]) by {
                    if i > 0 {
                        assert(ws[i] == ws.drop_first()[i - 1]);
                    }
                }
            }
        } else {
            assert(ws[0] == ws[0]);
        }
    }
}


/// The definition keyword line `ls[i]` begins with (after modifiers), if any.
pub open spec fn def_kind_at(ls: Seq<Seq<char>>, i: int) -> Option<Seq<char>> {
    first_word_of(strip_mods_spec(ls[i]), definition_kinds())
}

/// Whether line `ls[j]` starts a new item at the indentation of `ls[i]` or
/// further out, which ends the body of a declaration on line `i`.
pub open spec fn ends_region(ls: Seq<Seq<char>>, i: int, j: int) -> bool {
    let lh = strip_mods_spec(ls[j]);
    &&& lh.len() > 0
    &&& indent_of(ls[j]) <= indent_of(ls[i])
    &&& first_word_of(lh, decl_starters()) is Some
}

/// The first line from `j` on that ends the body begun on line `i`, or the
/// number of lines.
pub open spec fn region_end_from(ls: Seq<Seq<char>>, i: int, j: int) -> int
    decreases ls.len() - j,
{
    if j >= ls.len() {
        ls.len() as int
    } else if ends_region(ls, i, j) {
        j
    } else {
        region_end_from(ls, i, j + 1)
    }
}

/// The key of the `n`-th anonymous declaration, of keyword `kind`.
pub open spec fn anon_key(kind: Seq<char>, n: nat) -> Seq<char> {
    "<anonymous "@ + kind + " #"@ + decimal(n) + ">"@
}

/// Whether the declaration on line `i` has no name.
pub open spec fn anon_at(ls: Seq<Seq<char>>, i: int) -> bool {
    match def_kind_at(ls, i) {
        Some(kind) => decl_name_spec(strip_mods_spec(ls[i]), kind) is None,
        None => false,
    }
}

/// The definition declared on line `i`, given how many anonymous ones came
/// before: its keyword, its name (or positional key) and its text from line
/// `i` to the end of its region, lines joined by spaces and
/// whitespace-normalized.
pub open spec fn def_at(ls: Seq<Seq<char>>, i: int, anon: nat) -> Option<SDef> {
    match def_kind_at(ls, i) {
        None => None,
        Some(kind) => {
            let head = strip_mods_spec(ls[i]);
            let end = region_end_from(ls, i, i + 1);
            let name = match decl_name_spec(head, kind) {
                Some(n) => n,
                None => anon_key(kind, anon),
            };
            Some(SDef { kind, name, text: normalize_ws_spec(join(ls.subrange(i, end), seq![' '])) })
        },
    }
}

/// The definitions on the first `n` lines, and how many were anonymous.
pub open spec fn defs_upto(ls: Seq<Seq<char>>, n: int) -> (Seq<SDef>, nat)
    decreases n,
{
    if n <= 0 {
        (Seq::empty(), 0)
    } else {
        let (d, a) = defs_upto(ls, n - 1);
        match def_at(ls, n - 1, a) {
            Some(x) => (d.push(x), if anon_at(ls, n - 1) { a + 1 } else { a }),
            None => (d, a),
        }
    }
}

/// Every definition-shaped declaration of a Lean source with its body.
pub open spec fn snapshot_definitions_spec(src: Seq<char>) -> Seq<SDef> {
    let ls = lines_spec(strip_spec(src));
    defs_upto(ls, ls.len() as int).0
}

/// The windows of `ws` are the lines `ls` of `v`.
pub open spec fn windows_are_lines(v: Seq<char>, ws: Seq<(usize, usize)>, ls: Seq<Seq<char>>) -> bool {
    &&& ws.len() == ls.len()
    &&& forall|j: int| 0 <= j < ws.len() ==> #[trigger] ws[j].0 <= ws[j].1 <= v.len()
        && v.subrange(ws[j].0 as int, ws[j].1 as int) == ls[j]
}

/// [`indent_of`] the window `v[lo..hi]`.
fn indent_width(v: &Vec<char>, lo: usize, hi: usize) -> (r: u128)
    requires
        lo <= hi <= v@.len(),
    ensures
        r == indent_of(v@.subrange(lo as int, hi as int)),
{
    let p = skip_class(v, lo, hi, CharClass::White);
    let ghost line = v@.subrange(lo as int, hi as int);
    proof {
        assert(class_pred(CharClass::White) == white_pred());
        assert(line.take(line.len() - ltrim(line, white_pred()).len()) == v@.subrange(lo as int, p as int));
    }
    let mut w: u128 = 0;
    let mut j: usize = lo;
    while j < p
        invariant
            lo <= j <= p <= hi <= v@.len(),
            w == utf8_width(v@.subrange(lo as int, j as int)),
            w <= 4 * (j - lo),
        decreases p - j,
    {
        let n = char_utf8_len(v[j]);
        assert(v@.subrange(lo as int, j + 1).drop_last() == v@.subrange(lo as int, j as int));
        w = w + n as u128;
        j = j + 1;
    }
    w
}

/// [`region_end_from`] for the declaration on line `i`.
fn region_end(
    v: &Vec<char>,
    ws: &Vec<(usize, usize)>,
    i: usize,
    indent: u128,
    mods: &Vec<Vec<char>>,
    starters: &Vec<Vec<char>>,
) -> (r: usize)
    requires
        windows_are_lines(v@, ws@, lines_spec(v@)),
        i < ws@.len(),
        indent == indent_of(lines_spec(v@)[i as int]),
        words_view(mods@) == decl_modifiers(),
        words_view(starters@) == decl_starters(),
    ensures
        r == region_end_from(lines_spec(v@), i as int, i + 1),
        i < r <= ws@.len(),
{
    let ghost ls = lines_spec(v@);
    let n = ws.len();
    let mut j: usize = i + 1;
    while j < ws.len()
        invariant
            windows_are_lines(v@, ws@, ls),
            ls == lines_spec(v@),
            i < j <= ws@.len(),
            indent == indent_of(ls[i as int]),
            words_view(mods@) == decl_modifiers(),
            words_view(starters@) == decl_starters(),
            region_end_from(ls, i as int, i + 1) == region_end_from(ls, i as int, j as int),
        decreases ws@.len() - j,
    {
        let (c, d) = ws[j];
        assert(v@.subrange(c as int, d as int) == ls[j as int]);
        let lh = strip_decl_modifiers(v, c, d, mods);
        if lh < d && indent_width(v, c, d) <= indent && first_word_at(v, lh, d, starters).is_some() {
            return j;
        }
        j = j + 1;
    }
    ws.len()
}

/// The window of the name [`decl_name_spec`] finds in `v[h..hi]` after a
/// keyword of length `kl`.
fn decl_name(v: &Vec<char>, h: usize, hi: usize, kl: usize) -> (r: Option<(usize, usize)>)
    requires
        h <= hi <= v@.len(),
        kl <= hi - h,
    ensures
        match r {
            Some((a, b)) => a <= b <= v@.len() && name_after(v@.subrange(h as int, hi as int), kl as nat)
                == Some(v@.subrange(a as int, b as int)),
            None => name_after(v@.subrange(h as int, hi as int), kl as nat) is None,
        },
{
    let a = skip_class(v, h + kl, hi, CharClass::White);
    let b = find_class(v, a, hi, CharClass::NonIdent);
    proof {
        let head = v@.subrange(h as int, hi as int);
        assert(head.skip(kl as int) == v@.subrange(h + kl, hi as int));
        assert(class_pred(CharClass::White) == white_pred());
        let rest = v@.subrange(a as int, hi as int);
        assert(rest.take(b - a) == v@.subrange(a as int, b as int));
    }
    if b == a {
        None
    } else {
        Some((a, b))
    }
}

/// The lines `i..end` joined by single spaces.
fn join_lines(v: &Vec<char>, ws: &Vec<(usize, usize)>, i: usize, end: usize) -> (r: Vec<char>)
    requires
        windows_are_lines(v@, ws@, lines_spec(v@)),
        i <= end <= ws@.len(),
    ensures
        r@ == join(lines_spec(v@).subrange(i as int, end as int), seq![' ']),
{
    let ghost ls = lines_spec(v@);
    let mut out: Vec<char> = Vec::new();
    let mut k: usize = i;
    assert(ls.subrange(i as int, i as int).len() == 0);
    while k < end
        invariant
            windows_are_lines(v@, ws@, ls),
            ls == lines_spec(v@),
            i <= k <= end <= ws@.len(),
            out@ == join(ls.subrange(i as int, k as int), seq![' ']),
        decreases end - k,
    {
        let (a, b) = ws[k];
        proof {
            assert(ls.subrange(i as int, k + 1) == ls.subrange(i as int, k as int).push(ls[k as int]));
            lemma_join_push(ls.subrange(i as int, k as int), seq![' '], ls[k as int]);
        }
        if k > i {
            out.push(' ');
        }
        extend_chars(&mut out, v, a, b);
        k = k + 1;
    }
    out
}

/// The key of the `n`-th anonymous declaration of keyword `kind`.
fn anonymous_key(kind: &String, n: usize) -> (r: String)
    ensures
        r@ == anon_key(kind@, n as nat),
{
    let mut s = owned("<anonymous ");
    s.append(kind.as_str());
    s.append(" #");
    push_decimal(&mut s, n);
    s.append(">");
    s
}

/// Extract every definition-shaped declaration (`def`, `abbrev`, `instance`,
/// `structure`, `class`, `inductive`) of a Lean source with its body: the text
/// from its line up to the next line that starts a new item at the same or an
/// outer indentation. An anonymous declaration is keyed by position.
pub fn snapshot_definitions(lean_src: &str) -> (r: Vec<DefinitionBody>)
    ensures
        defs_view(r@) == snapshot_definitions_spec(lean_src@),
{
    let src = chars_of(lean_src);
    let v = strip_comment_chars(&src);
    let ws = line_windows(&v);
    let ghost ls = lines_spec(v@);
    let kinds = definition_kind_words();
    let starters = decl_starter_words();
    let mods = decl_modifier_words();
    let mut out: Vec<DefinitionBody> = Vec::new();
    let mut anon: usize = 0;
    let mut i: usize = 0;
    while i < ws.len()
        invariant
            windows_are_lines(v@, ws@, ls),
            ls == lines_spec(v@),
            v@ == strip_spec(lean_src@),
            words_view(kinds@) == definition_kinds(),
            words_view(starters@) == decl_starters(),
            words_view(mods@) == decl_modifiers(),
            i <= ws@.len(),
            anon <= i,
            defs_upto(ls, i as int) == (defs_view(out@), anon as nat),
        decreases ws@.len() - i,
    {
        let (a, b) = ws[i];
        assert(v@.subrange(a as int, b as int) == ls[i as int]);
        let h = strip_decl_modifiers(&v, a, b, &mods);
        let ghost head = v@.subrange(h as int, b as int);
        match first_word_at(&v, h, b, &kinds) {
            None => {
                assert(def_at(ls, i as int, anon as nat) is None);
            },
            Some(k) => {
                let kind = string_of(&kinds[k]);
                let kl = kinds[k].len();
                proof {
                    lemma_first_word_of(head, definition_kinds());
                    assert(kind@ == definition_kinds()[k as int]);
                }
                let indent = indent_width(&v, a, b);
                let end = region_end(&v, &ws, i, indent, &mods, &starters);
                let nm = decl_name(&v, h, b, kl);
                let name = match nm {
                    Some((x, y)) => string_of_range(&v, x, y),
                    None => {
                        let key = anonymous_key(&kind, anon);
                        anon = anon + 1;
                        key
                    },
                };
                let joined = join_lines(&v, &ws, i, end);
                let text = normalize_ws(&joined, 0, joined.len());
                assert(joined@.subrange(0, joined@.len() as int) == joined@);
                let ghost before = defs_view(out@);
                out.push(DefinitionBody { kind, name, text: string_of(&text) });
                assert(defs_view(out@) == before.push(out@.last()@));
            },
        }
        i = i + 1;
    }
    out
}


// ===========================================================================
// Definition comparison
// ===========================================================================

/// How many of `ds` are named `name`.
pub open spec fn count_named(ds: Seq<SDef>, name: Seq<char>) -> nat
    decreases ds.len(),
{
    if ds.len() == 0 {
        0
    } else {
        count_named(ds.drop_last(), name) + if ds.last().name == name { 1nat } else { 0nat }
    }
}

/// The first of `ds` named `name`.
pub open spec fn first_named(ds: Seq<SDef>, name: Seq<char>) -> Option<SDef>
    decreases ds.len(),
{
    if ds.len() == 0 {
        None
    } else if ds[0].name == name {
        Some(ds[0])
    } else {
        first_named(ds.drop_first(), name)
    }
}

/// Whether a definition before position `k` of `ds` has the name of `ds[k]`.
pub open spec fn named_earlier(ds: Seq<SDef>, k: int) -> bool {
    exists|j: int| 0 <= j < k && #[trigger] ds[j].name == ds[k].name
}

/// The (changed, removed, ambiguous) names from the first `n` definitions
/// `before`, each name judged once, at its first occurrence: ambiguous if it
/// is declared more than once on either side, removed if absent `after`,
/// changed if its text or kind differs there.
pub open spec fn drift_upto(before: Seq<SDef>, after: Seq<SDef>, n: int) -> (Seq<Seq<char>>, Seq<Seq<char>>, Seq<Seq<char>>)
    decreases n,
{
    if n <= 0 {
        (Seq::empty(), Seq::empty(), Seq::empty())
    } else {
        let (c, r, a) = drift_upto(before, after, n - 1);
        let b = before[n - 1];
        if named_earlier(before, n - 1) {
            (c, r, a)
        } else if count_named(before, b.name) > 1 || count_named(after, b.name) > 1 {
            (c, r, a.push(b.name))
        } else {
            match first_named(after, b.name) {
                None => (c, r.push(b.name), a),
                Some(d) => if d.text != b.text || d.kind != b.kind {
                    (c.push(b.name), r, a)
                } else {
                    (c, r, a)
                },
            }
        }
    }
}

/// The (changed, removed, ambiguous) names of comparing two snapshots.
pub open spec fn drift_spec(before: Seq<SDef>, after: Seq<SDef>) -> (Seq<Seq<char>>, Seq<Seq<char>>, Seq<Seq<char>>) {
    drift_upto(before, after, before.len() as int)
}

/// Whether a drift report says what [`definitions_preserved`] computes.
pub open spec fn drift_report_holds(r: DefinitionDriftReport, before: Seq<SDef>, after: Seq<SDef>) -> bool {
    let (c, rm, a) = drift_spec(before, after);
    &&& defs_view(r.before@) == before
    &&& defs_view(r.after@) == after
    &&& strs_view(r.changed@) == c
    &&& strs_view(r.removed@) == rm
    &&& strs_view(r.ambiguous@) == a
    &&& r.preserved == (c.len() == 0 && rm.len() == 0 && a.len() == 0)
}

/// A copy of `ds`.
fn clone_defs(ds: &[DefinitionBody]) -> (r: Vec<DefinitionBody>)
    ensures
        defs_view(r@) == defs_view(ds@),
{
    let mut out: Vec<DefinitionBody> = Vec::new();
    let mut i: usize = 0;
    while i < ds.len()
        invariant
            i <= ds@.len(),
            out@.len() == i,
            forall|j: int| 0 <= j < i ==> #[trigger] out@[j]@ == ds@[j]@,
        decreases ds@.len() - i,
    {
        let d = &ds[i];
        out.push(DefinitionBody { kind: d.kind.clone(), name: d.name.clone(), text: d.text.clone() });
        i = i + 1;
    }
    assert(defs_view(out@) =~= defs_view(ds@));
    out
}

/// How many of `ds` are named `name`.
fn count_defs_named(ds: &[DefinitionBody], name: &String) -> (r: usize)
    ensures
        r == count_named(defs_view(ds@), name@),
{
    let mut c: usize = 0;
    let mut i: usize = 0;
    while i < ds.len()
        invariant
            i <= ds@.len(),
            c <= i,
            c == count_named(defs_view(ds@).take(i as int), name@),
        decreases ds@.len() - i,
    {
        assert(defs_view(ds@).take(i + 1).drop_last() == defs_view(ds@).take(i as int));
        if ds[i].name == *name {
            c = c + 1;
        }
        i = i + 1;
    }
    assert(defs_view(ds@).take(ds@.len() as int) == defs_view(ds@));
    c
}

/// The index of the first of `ds` named `name`.
fn first_def_named(ds: &[DefinitionBody], name: &String) -> (r: Option<usize>)
    ensures
        match r {
            Some(k) => k < ds@.len() && first_named(defs_view(ds@), name@) == Some(ds@[k as int]@),
            None => first_named(defs_view(ds@), name@) is None,
        },
{
    let mut i: usize = 0;
    assert(defs_view(ds@).skip(0) == defs_view(ds@));
    while i < ds.len()
        invariant
            i <= ds@.len(),
            first_named(defs_view(ds@), name@) == first_named(defs_view(ds@).skip(i as int), name@),
        decreases ds@.len() - i,
    {
        assert(defs_view(ds@).skip(i as int)[0] == ds@[i as int]@);
        assert(defs_view(ds@).skip(i as int).drop_first() == defs_view(ds@).skip(i + 1));
        if ds[i].name == *name {
            return Some(i);
        }
        i = i + 1;
    }
    None
}

/// Compare two definition snapshots, failing closed: each name of `before` is
/// reported once as ambiguous (declared more than once on either side),
/// removed (absent after) or changed (text or kind differs); `preserved` is
/// whether nothing was reported.
pub fn definitions_preserved(before: &[DefinitionBody], after: &[DefinitionBody]) -> (r: DefinitionDriftReport)
    ensures
        drift_report_holds(r, defs_view(before@), defs_view(after@)),
{
    let ghost bv = defs_view(before@);
    let ghost av = defs_view(after@);
    let mut changed: Vec<String> = Vec::new();
    let mut removed: Vec<String> = Vec::new();
    let mut ambiguous: Vec<String> = Vec::new();
    let mut i: usize = 0;
    while i < before.len()
        invariant
            i <= before@.len(),
            bv == defs_view(before@),
            av == defs_view(after@),
            drift_upto(bv, av, i as int) == (strs_view(changed@), strs_view(removed@), strs_view(ambiguous@)),
        decreases before@.len() - i,
    {
        let b = &before[i];
        let ghost c0 = strs_view(changed@);
        let ghost r0 = strs_view(removed@);
        let ghost a0 = strs_view(ambiguous@);
        let mut seen = false;
        let mut j: usize = 0;
        assert(bv[i as int] == b@);
        while j < i
            invariant
                j <= i < before@.len(),
                bv == defs_view(before@),
                bv[i as int].name == b.name@,
                seen == exists|k: int| 0 <= k < j && #[trigger] bv[k].name == bv[i as int].name,
            decreases i - j,
        {
            assert(bv[j as int] == before@[j as int]@);
            if before[j].name == b.name {
                assert(bv[j as int].name == bv[i as int].name);
                seen = true;
            }
            j = j + 1;
        }
        assert(seen == named_earlier(bv, i as int));
        if !seen {
            let befores = count_defs_named(before, &b.name);
            let matches = count_defs_named(after, &b.name);
            if befores > 1 || matches > 1 {
                ambiguous.push(b.name.clone());
                assert(strs_view(ambiguous@) == a0.push(b.name@));
            } else {
                match first_def_named(after, &b.name) {
                    None => {
                        removed.push(b.name.clone());
                        assert(strs_view(removed@) == r0.push(b.name@));
                    },
                    Some(k) => {
                        let a = &after[k];
                        if a.text != b.text || a.kind != b.kind {
                            changed.push(b.name.clone());
                            assert(strs_view(changed@) == c0.push(b.name@));
                        }
                    },
                }
            }
        }
        i = i + 1;
    }
    let preserved = changed.len() == 0 && removed.len() == 0 && ambiguous.len() == 0;
    DefinitionDriftReport {
        preserved,
        before: clone_defs(before),
        after: clone_defs(after),
        changed,
        removed,
        ambiguous,
    }
}

// ===========================================================================
// Round trip
// ===========================================================================

/// Whether `r` is the report of guarding the round trip `before_src` ->
/// `after_src`: the header comparison of their snapshots, the definition
/// comparison of their snapshots, and `preserved` only if both are clean.
pub open spec fn round_trip_holds(r: StatementGuardReport, before_src: Seq<char>, after_src: Seq<char>) -> bool {
    let hb = snapshot_headers_spec(before_src);
    let ha = snapshot_headers_spec(after_src);
    &&& header_report_holds(r, hb, ha)
    &&& drift_report_holds(r.definitions, snapshot_definitions_spec(before_src), snapshot_definitions_spec(after_src))
    &&& r.preserved == (missing_spec(hb, ha).len() == 0 && weakened_spec(hb, ha).len() == 0
        && r.definitions.preserved)
}

/// Guard a prover round trip: compare the header snapshots and the definition
/// snapshots of the two sources. A deleted or weakened header, or a changed,
/// removed or ambiguous definition, makes the report not `preserved`.
pub fn guard_lean_round_trip(before_src: &str, after_src: &str) -> (r: StatementGuardReport)
    ensures
        round_trip_holds(r, before_src@, after_src@),
{
    let hb = snapshot_headers(before_src);
    let ha = snapshot_headers(after_src);
    let mut report = headers_preserved(hb.as_slice(), ha.as_slice());
    let db = snapshot_definitions(before_src);
    let da = snapshot_definitions(after_src);
    report.definitions = definitions_preserved(db.as_slice(), da.as_slice());
    report.preserved = report.preserved && report.definitions.preserved;
    proof {
        assert(strs_view(report.missing@).len() == report.missing@.len());
        assert(strs_view(report.weakened@).len() == report.weakened@.len());
    }
    report
}


// ===========================================================================
// Restoring drifted statements
// ===========================================================================

/// Outcome of restoring drifted statements: the rewritten source and the
/// names touched.
#[derive(Debug, Clone, PartialEq, Eq)]
pub struct StatementRestore {
    /// The source with drifted headers restored and deleted declarations
    /// re-appended as `… := by sorry`.
    pub restored_src: String,
    /// Declarations whose header was rewritten back to the snapshot, the
    /// proof body kept.
    pub rewritten: Vec<String>,
    /// Declarations that had been deleted and were re-appended as an open
    /// obligation.
    pub reappended: Vec<String>,
}

/// `kind name signature` of a header.
pub open spec fn header_text(h: SHeader) -> Seq<char> {
    h.kind + " "@ + h.name + " "@ + h.signature
}

/// The proof body a rewritten header line keeps: what follows its first
/// `:=`, trimmed, or `by sorry` when there is none or it is empty.
pub open spec fn kept_body(line: Seq<char>) -> Seq<char> {
    match find_sub(line, ":="@) {
        Some(k) => {
            let b = trim(line.skip(k + 2), white_pred());
            if b.len() > 0 {
                b
            } else {
                "by sorry"@
            }
        },
        None => "by sorry"@,
    }
}

/// The rewritten form of a header line, and the name it declares, when its
/// name is among `weakened`: the line's indentation, the original header from
/// `before`, ` := ` and the kept body.
pub open spec fn restore_line(line: Seq<char>, weakened: Seq<Seq<char>>, before: Seq<SHeader>) -> Option<(Seq<char>, Seq<char>)> {
    let trimmed = ltrim(line, white_pred());
    match decl_prefix_spec(trimmed) {
        Some((_, rest)) => match name_sig_spec(rest) {
            Some((name, _)) => if weakened.contains(name) {
                match lookup_last(before, name) {
                    Some(orig) => Some(
                        (
                            line.take(line.len() - trimmed.len()) + header_text(orig) + " := "@
                                + kept_body(line),
                            name,
                        ),
                    ),
                    None => None,
                }
            } else {
                None
            },
            None => None,
        },
        None => None,
    }
}

/// The lines after restoring, and the names rewritten, in order.
pub open spec fn restored_lines(ls: Seq<Seq<char>>, weakened: Seq<Seq<char>>, before: Seq<SHeader>) -> (Seq<Seq<char>>, Seq<Seq<char>>)
    decreases ls.len(),
{
    if ls.len() == 0 {
        (Seq::empty(), Seq::empty())
    } else {
        let (out, names) = restored_lines(ls.drop_last(), weakened, before);
        match restore_line(ls.last(), weakened, before) {
            Some((l, n)) => (out.push(l), names.push(n)),
            None => (out.push(ls.last()), names),
        }
    }
}

/// `src` with every header of `hs` whose name is `missing` appended as
/// `<header> := by sorry` on a line of its own, and the names appended.
pub open spec fn reappend(src: Seq<char>, hs: Seq<SHeader>, missing: Seq<Seq<char>>) -> (Seq<char>, Seq<Seq<char>>)
    decreases hs.len(),
{
    if hs.len() == 0 {
        (src, Seq::empty())
    } else {
        let (s0, names) = reappend(src, hs.drop_last(), missing);
        let h = hs.last();
        if missing.contains(h.name) {
            let s1 = if s0.len() > 0 && s0.last() != '\n' { s0.push('\n') } else { s0 };
            (s1 + header_text(h) + " := by sorry\n"@, names.push(h.name))
        } else {
            (s0, names)
        }
    }
}

/// What restoring `after_src` against `before_src` yields: the source, the
/// rewritten names and the re-appended names.
pub open spec fn restore_spec(before_src: Seq<char>, after_src: Seq<char>) -> (Seq<char>, Seq<Seq<char>>, Seq<Seq<char>>) {
    let hb = snapshot_headers_spec(before_src);
    let ha = snapshot_headers_spec(after_src);
    let (ls, rewritten) = restored_lines(lines_spec(after_src), weakened_spec(hb, ha), hb);
    let (src, reappended) = reappend(join(ls, seq!['\n']), hb, missing_spec(hb, ha));
    (src, rewritten, reappended)
}

/// Append the characters of `s` to `out`.
fn append_str(out: &mut Vec<char>, s: &str)
    ensures
        final(out)@ == old(out)@ + s@,
{
    let v = chars_of(s);
    extend_chars(out, &v, 0, v.len());
    assert(v@.subrange(0, v@.len() as int) == v@);
}

/// Whether `names` holds `name`.
fn has_name(names: &Vec<String>, name: &String) -> (r: bool)
    ensures
        r == strs_view(names@).contains(name@),
{
    let mut i: usize = 0;
    while i < names.len()
        invariant
            i <= names@.len(),
            forall|j: int| 0 <= j < i ==> names@[j]@ != name@,
        decreases names@.len() - i,
    {
        if names[i] == *name {
            assert(strs_view(names@)[i as int] == name@);
            return true;
        }
        i = i + 1;
    }
    assert forall|j: int| 0 <= j < strs_view(names@).len() implies strs_view(names@)[j] != name@ by {
        assert(strs_view(names@)[j] == names@[j]@);
    }
    false
}

/// [`kept_body`] of the line window `v[a..b]`, appended to `out`.
fn append_kept_body(out: &mut Vec<char>, v: &Vec<char>, a: usize, b: usize)
    requires
        a <= b <= v@.len(),
    ensures
        final(out)@ == old(out)@ + kept_body(v@.subrange(a as int, b as int)),
{
    let assign = chars_of(":=");
    proof {
        reveal_strlit(":=");
    }
    match find_sub_at(v, a, b, &assign) {
        Some(k) => {
            let (x, y) = trim_class(v, a + k + 2, b, CharClass::White);
            proof {
                assert(v@.subrange(a as int, b as int).skip(k + 2) == v@.subrange(a + k + 2, b as int));
                assert(class_pred(CharClass::White) == white_pred());
            }
            if x < y {
                extend_chars(out, v, x, y);
            } else {
                append_str(out, "by sorry");
            }
        },
        None => {
            append_str(out, "by sorry");
        },
    }
}

/// [`restore_line`] of the line window `v[a..b]`.
fn restore_line_at(
    v: &Vec<char>,
    a: usize,
    b: usize,
    weakened: &Vec<String>,
    before: &Vec<TheoremHeader>,
) -> (r: Option<(Vec<char>, String)>)
    requires
        a <= b <= v@.len(),
    ensures
        match r {
            Some((l, n)) => restore_line(v@.subrange(a as int, b as int), strs_view(weakened@), headers_view(before@))
                == Some((l@, n@)),
            None => restore_line(v@.subrange(a as int, b as int), strs_view(weakened@), headers_view(before@)) is None,
        },
{
    let ghost line = v@.subrange(a as int, b as int);
    let t = skip_class(v, a, b, CharClass::White);
    proof {
        assert(class_pred(CharClass::White) == white_pred());
        assert(line.take(line.len() - ltrim(line, white_pred()).len()) == v@.subrange(a as int, t as int));
    }
    let (_kind, p) = match decl_prefix(v, t, b) {
        Some(x) => x,
        None => return None,
    };
    let ((na, nb), _) = match name_sig(v, p, b) {
        Some(x) => x,
        None => return None,
    };
    let name = string_of_range(v, na, nb);
    if !has_name(weakened, &name) {
        return None;
    }
    let k = match find_last_named(before.as_slice(), &name) {
        Some(k) => k,
        None => return None,
    };
    let orig = &before[k];
    let mut out: Vec<char> = Vec::new();
    extend_chars(&mut out, v, a, t);
    append_str(&mut out, orig.kind.as_str());
    append_str(&mut out, " ");
    append_str(&mut out, orig.name.as_str());
    append_str(&mut out, " ");
    append_str(&mut out, orig.signature.as_str());
    append_str(&mut out, " := ");
    append_kept_body(&mut out, v, a, b);
    proof {
        let o = orig@;
        assert(out@ =~= v@.subrange(a as int, t as int) + header_text(o) + " := "@ + kept_body(line));
    }
    Some((out, name))
}

/// Restore drifted statements rather than only reject them. For each header
/// of `before_src`: if it survives in `after_src` with a weakened signature,
/// its line is rewritten to the original header keeping the proof body after
/// `:=` (or `by sorry`); if it was deleted, it is re-appended as
/// `<header> := by sorry`. Other lines are kept. Definition bodies are only
/// reported, never rewritten.
pub fn restore_statements(before_src: &str, after_src: &str) -> (r: StatementRestore)
    ensures
        restore_spec(before_src@, after_src@) == (r.restored_src@, strs_view(r.rewritten@), strs_view(r.reappended@)),
{
    let before = snapshot_headers(before_src);
    let report = guard_lean_round_trip(before_src, after_src);
    let ghost hb = snapshot_headers_spec(before_src@);
    let ghost ha = snapshot_headers_spec(after_src@);
    let ghost weak = weakened_spec(hb, ha);
    let v = chars_of(after_src);
    let ws = line_windows(&v);
    let ghost ls = lines_spec(v@);
    let mut out: Vec<char> = Vec::new();
    let mut rewritten: Vec<String> = Vec::new();
    let mut i: usize = 0;
    while i < ws.len()
        invariant
            windows_are_lines(v@, ws@, ls),
            ls == lines_spec(v@),
            v@ == after_src@,
            headers_view(before@) == hb,
            strs_view(report.weakened@) == weak,
            i <= ws@.len(),
            ({
                let (ls2, names) = restored_lines(ls.take(i as int), weak, hb);
                out@ == join(ls2, seq!['\n']) && strs_view(rewritten@) == names && ls2.len() == i
            }),
        decreases ws@.len() - i,
    {
        let (a, b) = ws[i];
        let ghost prev = restored_lines(ls.take(i as int), weak, hb);
        proof {
            assert(ls.take(i + 1).drop_last() == ls.take(i as int));
            assert(ls.take(i + 1).last() == ls[i as int]);
            assert(v@.subrange(a as int, b as int) == ls[i as int]);
        }
        let ghost out0 = out@;
        let ghost rw0 = strs_view(rewritten@);
        if i > 0 {
            out.push('\n');
        }
        match restore_line_at(&v, a, b, &report.weakened, &before) {
            Some((l, n)) => {
                extend_chars(&mut out, &l, 0, l.len());
                proof {
                    assert(l@.subrange(0, l@.len() as int) == l@);
                    lemma_join_push(prev.0, seq!['\n'], l@);
                }
                rewritten.push(n);
                assert(strs_view(rewritten@) == rw0.push(n@));
            },
            None => {
                extend_chars(&mut out, &v, a, b);
                proof {
                    lemma_join_push(prev.0, seq!['\n'], ls[i as int]);
                }
                assert(strs_view(rewritten@) == rw0);
            },
        }
        i = i + 1;
    }
    proof {
        assert(ls.take(ws@.len() as int) == ls);
    }
    let ghost base = out@;
    let ghost miss = missing_spec(hb, ha);
    let mut reappended: Vec<String> = Vec::new();
    let mut j: usize = 0;
    while j < before.len()
        invariant
            j <= before@.len(),
            headers_view(before@) == hb,
            strs_view(report.missing@) == miss,
            reappend(base, hb.take(j as int), miss) == (out@, strs_view(reappended@)),
        decreases before@.len() - j,
    {
        let h = &before[j];
        proof {
            assert(hb.take(j + 1).drop_last() == hb.take(j as int));
            assert(hb.take(j + 1).last() == h@);
        }
        if has_name(&report.missing, &h.name) {
            let ghost o0 = out@;
            let ghost re0 = strs_view(reappended@);
            let n = out.len();
            if n > 0 && out[n - 1] != '\n' {
                out.push('\n');
            }
            append_str(&mut out, h.kind.as_str());
            append_str(&mut out, " ");
            append_str(&mut out, h.name.as_str());
            append_str(&mut out, " ");
            append_str(&mut out, h.signature.as_str());
            append_str(&mut out, " := by sorry\n");
            reappended.push(h.name.clone());
            proof {
                let s1 = if o0.len() > 0 && o0.last() != '\n' { o0.push('\n') } else { o0 };
                assert(out@ =~= s1 + header_text(h@) + " := by sorry\n"@);
                assert(strs_view(reappended@) == re0.push(h.name@));
            }
        }
        j = j + 1;
    }
    proof {
        assert(hb.take(before@.len() as int) == hb);
    }
    StatementRestore { restored_src: string_of(&out), rewritten, reappended }
}


// ===========================================================================
// Laws
// ===========================================================================

/// No two headers share a name.
pub open spec fn header_names_distinct(hs: Seq<SHeader>) -> bool {
    forall|i: int, j: int| 0 <= i < j < hs.len() ==> #[trigger] hs[i].name != #[trigger] hs[j].name
}

/// No two definitions share a name.
pub open spec fn def_names_distinct(ds: Seq<SDef>) -> bool {
    forall|i: int, j: int| 0 <= i < j < ds.len() ==> #[trigger] ds[i].name != #[trigger] ds[j].name
}

proof fn lemma_lookup_last_finds(hs: Seq<SHeader>, k: int)
    requires
        0 <= k < hs.len(),
    ensures
        lookup_last(hs, hs[k].name) is Some,
        header_names_distinct(hs) ==> lookup_last(hs, hs[k].name) == Some(hs[k]),
    decreases hs.len(),
{
    if hs.last().name != hs[k].name {
        assert(k != hs.len() - 1);
        assert(hs.drop_last()[k] == hs[k]);
        lemma_lookup_last_finds(hs.drop_last(), k);
        if header_names_distinct(hs) {
            assert(header_names_distinct(hs.drop_last())) by {
                assert forall|i: int, j: int| 0 <= i < j < hs.drop_last().len() implies #[trigger] hs.drop_last()[i].name
                    != #[trigger] hs.drop_last()[j].name by {
                    assert(hs.drop_last()[i] == hs[i] && hs.drop_last()[j] == hs[j]);
                }
            }
        }
    } else if header_names_distinct(hs) && k != hs.len() - 1 {
        assert(hs[k].name != hs[hs.len() - 1].name);
    }
}

/// A header snapshot compared with itself loses nothing, and weakens nothing
/// when no name is declared twice (a later duplicate shadows an earlier one
/// whose signature may differ).
pub proof fn lemma_headers_self_preserved(hs: Seq<SHeader>)
    ensures
        missing_spec(hs, hs).len() == 0,
        header_names_distinct(hs) ==> weakened_spec(hs, hs).len() == 0,
{
    lemma_headers_self_prefix(hs, hs.len() as int);
    assert(hs.take(hs.len() as int) == hs);
}

proof fn lemma_headers_self_prefix(hs: Seq<SHeader>, n: int)
    requires
        0 <= n <= hs.len(),
    ensures
        missing_spec(hs.take(n), hs).len() == 0,
        header_names_distinct(hs) ==> weakened_spec(hs.take(n), hs).len() == 0,
    decreases n,
{
    if n > 0 {
        lemma_headers_self_prefix(hs, n - 1);
        assert(hs.take(n).drop_last() == hs.take(n - 1));
        assert(hs.take(n).last() == hs[n - 1]);
        lemma_lookup_last_finds(hs, n - 1);
    }
}

proof fn lemma_count_distinct(ds: Seq<SDef>, k: int)
    requires
        0 <= k < ds.len(),
        def_names_distinct(ds),
    ensures
        count_named(ds, ds[k].name) == 1,
    decreases ds.len(),
{
    if k < ds.len() - 1 {
        assert(ds.drop_last()[k] == ds[k]);
        assert(def_names_distinct(ds.drop_last())) by {
            assert forall|i: int, j: int| 0 <= i < j < ds.drop_last().len() implies #[trigger] ds.drop_last()[i].name
                != #[trigger] ds.drop_last()[j].name by {
                assert(ds.drop_last()[i] == ds[i] && ds.drop_last()[j] == ds[j]);
            }
        }
        lemma_count_distinct(ds.drop_last(), k);
        assert(ds[k].name != ds[ds.len() - 1].name);
    } else {
        lemma_count_none(ds.drop_last(), ds[k].name);
    }
}

proof fn lemma_count_none(ds: Seq<SDef>, name: Seq<char>)
    requires
        forall|i: int| 0 <= i < ds.len() ==> #[trigger] ds[i].name != name,
    ensures
        count_named(ds, name) == 0,
    decreases ds.len(),
{
    if ds.len() > 0 {
        assert forall|i: int| 0 <= i < ds.drop_last().len() implies #[trigger] ds.drop_last()[i].name != name by {
            assert(ds.drop_last()[i] == ds[i]);
        }
        lemma_count_none(ds.drop_last(), name);
        assert(ds.last() == ds[ds.len() - 1]);
    }
}

proof fn lemma_first_named_at(ds: Seq<SDef>, k: int)
    requires
        0 <= k < ds.len(),
        !named_earlier(ds, k),
    ensures
        first_named(ds, ds[k].name) == Some(ds[k]),
    decreases k,
{
    if k > 0 {
        if ds[0].name == ds[k].name {
            assert(named_earlier(ds, k));
        }
        let t = ds.drop_first();
        assert(t[k - 1] == ds[k]);
        if named_earlier(t, k - 1) {
            let j = choose|j: int| 0 <= j < k - 1 && #[trigger] t[j].name == t[k - 1].name;
            assert(ds[j + 1].name == ds[k].name);
        }
        lemma_first_named_at(t, k - 1);
    }
}

/// A definition snapshot compared with itself has nothing changed or
/// removed, and nothing ambiguous when no name is declared twice.
pub proof fn lemma_definitions_self_preserved(ds: Seq<SDef>)
    ensures
        drift_spec(ds, ds).0.len() == 0,
        drift_spec(ds, ds).1.len() == 0,
        def_names_distinct(ds) ==> drift_spec(ds, ds).2.len() == 0,
{
    lemma_definitions_self_prefix(ds, ds.len() as int);
}

proof fn lemma_definitions_self_prefix(ds: Seq<SDef>, n: int)
    requires
        0 <= n <= ds.len(),
    ensures
        drift_upto(ds, ds, n).0.len() == 0,
        drift_upto(ds, ds, n).1.len() == 0,
        def_names_distinct(ds) ==> drift_upto(ds, ds, n).2.len() == 0,
    decreases n,
{
    if n > 0 {
        lemma_definitions_self_prefix(ds, n - 1);
        if !named_earlier(ds, n - 1) {
            lemma_first_named_at(ds, n - 1);
            if def_names_distinct(ds) {
                lemma_count_distinct(ds, n - 1);
            }
        }
    }
}

/// Guarding a source against itself passes whenever no header name and no
/// definition name is declared twice in it.
pub proof fn lemma_round_trip_self_preserved(src: Seq<char>)
    requires
        header_names_distinct(snapshot_headers_spec(src)),
        def_names_distinct(snapshot_definitions_spec(src)),
    ensures
        forall|r: StatementGuardReport| round_trip_holds(r, src, src) ==> r.preserved,
{
    lemma_headers_self_preserved(snapshot_headers_spec(src));
    lemma_definitions_self_preserved(snapshot_definitions_spec(src));
}


/// Comment stripping keeps every position: the result is as long as the
/// input, has a `'\n'` exactly where the input has one, and elsewhere holds
/// either the input character or a space.
pub proof fn lemma_strip_keeps_positions(s: Seq<char>)
    ensures
        strip_spec(s).len() == s.len(),
        forall|j: int| 0 <= j < s.len() ==> (#[trigger] strip_spec(s)[j] == '\n') == (s[j] == '\n'),
        forall|j: int| 0 <= j < s.len() ==> #[trigger] strip_spec(s)[j] == s[j] || strip_spec(s)[j] == ' ',
{
    lemma_strip_from_positions(s, 0, false, 0);
}

proof fn lemma_strip_from_positions(s: Seq<char>, i: int, in_line: bool, depth: nat)
    requires
        0 <= i <= s.len(),
    ensures
        strip_from(s, i, in_line, depth).len() == s.len() - i,
        forall|j: int| 0 <= j < s.len() - i ==> (#[trigger] strip_from(s, i, in_line, depth)[j] == '\n') == (s[i + j] == '\n'),
        forall|j: int| 0 <= j < s.len() - i ==> #[trigger] strip_from(s, i, in_line, depth)[j] == s[i + j]
            || strip_from(s, i, in_line, depth)[j] == ' ',
    decreases s.len() - i,
{
    if i < s.len() {
        let c = s[i];
        let nx: Option<char> = if i + 1 < s.len() { Some(s[i + 1]) } else { None };
        let pair = (in_line == false) && (
            (depth > 0 && ((c == '/' && nx == Some('-')) || (c == '-' && nx == Some('/'))))
            || (depth == 0 && ((c == '-' && nx == Some('-')) || (c == '/' && nx == Some('-')))));
        if pair {
            let nd: nat = if depth > 0 {
                if c == '/' { depth + 1 } else { (depth - 1) as nat }
            } else if c == '/' {
                1
            } else {
                0
            };
            let nl = depth == 0 && c == '-';
            lemma_strip_from_positions(s, i + 2, nl, nd);
            assert(strip_from(s, i, in_line, depth) == seq![' ', ' '] + strip_from(s, i + 2, nl, nd));
        } else {
            let nl = in_line && c != '\n';
            let nd: nat = if in_line || depth > 0 { depth } else { 0 };
            lemma_strip_from_positions(s, i + 1, nl, nd);
            let out = strip_from(s, i, in_line, depth);
            let rest = strip_from(s, i + 1, nl, nd);
            assert(out == seq![out[0]] + rest);
            assert forall|j: int| 0 <= j < s.len() - i implies (#[trigger] out[j] == '\n') == (s[i + j] == '\n') by {
                if j > 0 {
                    assert(out[j] == rest[j - 1]);
                }
            }
            assert forall|j: int| 0 <= j < s.len() - i implies #[trigger] out[j] == s[i + j] || out[j] == ' ' by {
                if j > 0 {
                    assert(out[j] == rest[j - 1]);
                }
            }
        }
    }
}


proof fn lemma_restored_lines_shape(ls: Seq<Seq<char>>, weak: Seq<Seq<char>>, before: Seq<SHeader>)
    ensures
        restored_lines(ls, weak, before).0.len() == ls.len(),
        forall|i: int|
            0 <= i < ls.len() ==> #[trigger] restored_lines(ls, weak, before).0[i] == match restore_line(ls[i], weak, before) {
                Some(p) => p.0,
                None => ls[i],
            },
        forall|k: int|
            0 <= k < restored_lines(ls, weak, before).1.len() ==> weak.contains(#[trigger] restored_lines(ls, weak, before).1[k]),
        weak.len() == 0 ==> restored_lines(ls, weak, before) == (ls, Seq::<Seq<char>>::empty()),
    decreases ls.len(),
{
    if ls.len() > 0 {
        let prev = ls.drop_last();
        lemma_restored_lines_shape(prev, weak, before);
        let (out0, names0) = restored_lines(prev, weak, before);
        let (out, names) = restored_lines(ls, weak, before);
        match restore_line(ls.last(), weak, before) {
            Some(p) => {
                assert(names == names0.push(p.1));
                let trimmed = ltrim(ls.last(), white_pred());
                assert(weak.contains(p.1));
            },
            None => {},
        }
        assert forall|i: int| 0 <= i < ls.len() implies #[trigger] out[i] == match restore_line(ls[i], weak, before) {
            Some(p) => p.0,
            None => ls[i],
        } by {
            if i < ls.len() - 1 {
                assert(prev[i] == ls[i]);
                assert(out[i] == out0[i]);
            }
        }
        assert forall|k: int| 0 <= k < names.len() implies weak.contains(#[trigger] names[k]) by {
            if k < names0.len() {
                assert(names[k] == names0[k]);
            }
        }
        if weak.len() == 0 {
            assert(restore_line(ls.last(), weak, before) is None) by {
                let trimmed = ltrim(ls.last(), white_pred());
                match decl_prefix_spec(trimmed) {
                    Some((_, rest)) => match name_sig_spec(rest) {
                        Some((name, _)) => {
                            assert(!weak.contains(name));
                        },
                        None => {},
                    },
                    None => {},
                }
            }
            assert(ls == prev.push(ls.last()));
        }
    }
}

proof fn lemma_contains_in_prefix(a: Seq<char>, b: Seq<char>, needle: Seq<char>)
    requires
        a.len() <= b.len(),
        b.take(a.len() as int) == a,
        contains_spec(a, needle),
    ensures
        contains_spec(b, needle),
{
    let i = choose|i: int| 0 <= i && i + needle.len() <= a.len() && #[trigger] a.subrange(i, i + needle.len()) == needle;
    assert(b.subrange(i, i + needle.len()) =~= a.subrange(i, i + needle.len()));
}

proof fn lemma_reappend_shape(src: Seq<char>, hs: Seq<SHeader>, missing: Seq<Seq<char>>)
    ensures
        reappend(src, hs, missing).0.len() >= src.len(),
        reappend(src, hs, missing).0.take(src.len() as int) == src,
        forall|k: int|
            0 <= k < reappend(src, hs, missing).1.len() ==> missing.contains(#[trigger] reappend(src, hs, missing).1[k]),
        forall|j: int|
            0 <= j < hs.len() && missing.contains(#[trigger] hs[j].name) ==> reappend(src, hs, missing).1.contains(hs[j].name)
                && contains_spec(reappend(src, hs, missing).0, header_text(hs[j]) + " := by sorry\n"@),
        missing.len() == 0 ==> reappend(src, hs, missing) == (src, Seq::<Seq<char>>::empty()),
    decreases hs.len(),
{
    if hs.len() > 0 {
        let prev = hs.drop_last();
        lemma_reappend_shape(src, prev, missing);
        let (s0, names0) = reappend(src, prev, missing);
        let (s, names) = reappend(src, hs, missing);
        let h = hs.last();
        let tail = header_text(h) + " := by sorry\n"@;
        if missing.contains(h.name) {
            let s1 = if s0.len() > 0 && s0.last() != '\n' { s0.push('\n') } else { s0 };
            assert(s == s1 + tail);
            assert(s1.take(s0.len() as int) =~= s0);
            assert(s.take(s1.len() as int) =~= s1);
            assert(s.take(src.len() as int) =~= src) by {
                assert(s.take(src.len() as int) =~= s1.take(src.len() as int));
                assert(s1.take(src.len() as int) =~= s0.take(src.len() as int));
            }
            assert(s.take(s0.len() as int) =~= s0) by {
                assert(s.take(s0.len() as int) =~= s1.take(s0.len() as int));
            }
            assert(s.subrange(s1.len() as int, (s1.len() + tail.len()) as int) =~= tail);
            assert(names == names0.push(h.name));
            assert forall|j: int|
                0 <= j < hs.len() && missing.contains(#[trigger] hs[j].name) implies names.contains(hs[j].name)
                    && contains_spec(s, header_text(hs[j]) + " := by sorry\n"@) by {
                if j < hs.len() - 1 {
                    assert(prev[j] == hs[j]);
                    let w = choose|w: int| 0 <= w < names0.len() && names0[w] == hs[j].name;
                    assert(names[w] == names0[w]);
                    lemma_contains_in_prefix(s0, s, header_text(hs[j]) + " := by sorry\n"@);
                } else {
                    assert(names[names.len() - 1] == h.name);
                }
            }
            assert forall|k: int| 0 <= k < names.len() implies missing.contains(#[trigger] names[k]) by {
                if k < names0.len() {
                    assert(names[k] == names0[k]);
                }
            }
        } else {
            assert forall|j: int|
                0 <= j < hs.len() && missing.contains(#[trigger] hs[j].name) implies names.contains(hs[j].name)
                    && contains_spec(s, header_text(hs[j]) + " := by sorry\n"@) by {
                assert(j < hs.len() - 1);
                assert(prev[j] == hs[j]);
            }
        }
    }
}

/// Restoring touches only what the guard flags. The after-side lines are kept
/// in order, and a line is rewritten only when it declares a weakened name;
/// every rewritten name is weakened. Every deleted declaration is re-appended
/// after those lines with its original header and `:= by sorry`, and nothing
/// else is. When the guard flags no header, the result is the after-side
/// lines rejoined, with nothing rewritten or re-appended.
pub proof fn lemma_restore_touches_only_flagged(before_src: Seq<char>, after_src: Seq<char>)
    ensures
        ({
            let hb = snapshot_headers_spec(before_src);
            let ha = snapshot_headers_spec(after_src);
            let weak = weakened_spec(hb, ha);
            let miss = missing_spec(hb, ha);
            let ls = lines_spec(after_src);
            let out = restored_lines(ls, weak, hb).0;
            let r = restore_spec(before_src, after_src);
            &&& out.len() == ls.len()
            &&& forall|i: int| 0 <= i < ls.len() && restore_line(ls[i], weak, hb) is None ==> #[trigger] out[i] == ls[i]
            &&& r.0.take(join(out, seq!['\n']).len() as int) == join(out, seq!['\n'])
            &&& forall|k: int| 0 <= k < r.1.len() ==> weak.contains(#[trigger] r.1[k])
            &&& forall|k: int| 0 <= k < r.2.len() ==> miss.contains(#[trigger] r.2[k])
            &&& forall|j: int|
                0 <= j < hb.len() && miss.contains(#[trigger] hb[j].name) ==> r.2.contains(hb[j].name) && contains_spec(
                    r.0,
                    header_text(hb[j]) + " := by sorry\n"@,
                )
            &&& weak.len() == 0 && miss.len() == 0 ==> r == (join(ls, seq!['\n']), Seq::<Seq<char>>::empty(), Seq::<Seq<char>>::empty())
        }),
{
    let hb = snapshot_headers_spec(before_src);
    let ha = snapshot_headers_spec(after_src);
    let weak = weakened_spec(hb, ha);
    let miss = missing_spec(hb, ha);
    let ls = lines_spec(after_src);
    lemma_restored_lines_shape(ls, weak, hb);
    let (out, _) = restored_lines(ls, weak, hb);
    lemma_reappend_shape(join(out, seq!['\n']), hb, miss);
}

/// Restoring a source against itself rewrites and re-appends nothing when no
/// header name is declared twice in it: the result is its lines rejoined.
pub proof fn lemma_restore_self_is_identity(src: Seq<char>)
    requires
        header_names_distinct(snapshot_headers_spec(src)),
    ensures
        restore_spec(src, src) == (join(lines_spec(src), seq!['\n']), Seq::<Seq<char>>::empty(), Seq::<Seq<char>>::empty()),
{
    lemma_headers_self_preserved(snapshot_headers_spec(src));
    lemma_restore_touches_only_flagged(src, src);
}


/// Whether `x` is named by one of the first `n` definitions.
pub open spec fn named_within(ds: Seq<SDef>, n: int, x: Seq<char>) -> bool {
    exists|j: int| 0 <= j < n && #[trigger] ds[j].name == x
}

proof fn lemma_push_fresh(s: Seq<Seq<char>>, x: Seq<char>)
    requires
        s.no_duplicates(),
        !s.contains(x),
    ensures
        s.push(x).no_duplicates(),
        forall|y: Seq<char>| #[trigger] s.push(x).contains(y) <==> (s.contains(y) || y == x),
{
    let t = s.push(x);
    assert forall|i: int, j: int| 0 <= i < t.len() && 0 <= j < t.len() && i != j implies t[i] != t[j] by {
        if i == s.len() as int {
            assert(t[j] == s[j]);
        } else if j == s.len() as int {
            assert(t[i] == s[i]);
        } else {
            assert(t[i] == s[i] && t[j] == s[j]);
        }
    }
    assert forall|y: Seq<char>| #[trigger] t.contains(y) <==> (s.contains(y) || y == x) by {
        if t.contains(y) {
            let i = choose|i: int| 0 <= i < t.len() && t[i] == y;
            if i < s.len() {
                assert(s[i] == y);
            }
        }
        if s.contains(y) {
            let i = choose|i: int| 0 <= i < s.len() && s[i] == y;
            assert(t[i] == y);
        }
        if y == x {
            assert(t[s.len() as int] == y);
        }
    }
}

proof fn lemma_drift_upto_disjoint(before: Seq<SDef>, after: Seq<SDef>, n: int)
    requires
        0 <= n <= before.len(),
    ensures
        ({
            let (c, r, a) = drift_upto(before, after, n);
            &&& c.no_duplicates() && r.no_duplicates() && a.no_duplicates()
            &&& forall|x: Seq<char>| #![trigger c.contains(x)] #![trigger r.contains(x)] !(c.contains(x) && r.contains(x))
            &&& forall|x: Seq<char>| #![trigger c.contains(x)] #![trigger a.contains(x)] !(c.contains(x) && a.contains(x))
            &&& forall|x: Seq<char>| #![trigger r.contains(x)] #![trigger a.contains(x)] !(r.contains(x) && a.contains(x))
            &&& forall|x: Seq<char>| #![trigger c.contains(x)] #![trigger r.contains(x)] #![trigger a.contains(x)] (c.contains(x) || r.contains(x) || a.contains(x)) ==> named_within(before, n, x)
        }),
    decreases n,
{
    if n > 0 {
        lemma_drift_upto_disjoint(before, after, n - 1);
        let (c, r, a) = drift_upto(before, after, n - 1);
        let b = before[n - 1];
        assert forall|x: Seq<char>| named_within(before, n - 1, x) implies named_within(before, n, x) by {
            let j = choose|j: int| 0 <= j < n - 1 && #[trigger] before[j].name == x;
            assert(before[j].name == x);
        }
        assert(named_within(before, n, b.name));
        if !named_earlier(before, n - 1) {
            assert(!c.contains(b.name) && !r.contains(b.name) && !a.contains(b.name)) by {
                if named_within(before, n - 1, b.name) {
                    let j = choose|j: int| 0 <= j < n - 1 && #[trigger] before[j].name == b.name;
                    assert(before[j].name == before[n - 1].name);
                }
            }
            if count_named(before, b.name) > 1 || count_named(after, b.name) > 1 {
                lemma_push_fresh(a, b.name);
            } else {
                match first_named(after, b.name) {
                    None => {
                        lemma_push_fresh(r, b.name);
                    },
                    Some(d) => if d.text != b.text || d.kind != b.kind {
                        lemma_push_fresh(c, b.name);
                    },
                }
            }
        }
    }
}

/// A drift report names each definition at most once: no name is listed
/// twice in changed, removed or ambiguous, no name is in two of them, and
/// every listed name is a definition of the earlier snapshot.
pub proof fn lemma_drift_names_once(before: Seq<SDef>, after: Seq<SDef>)
    ensures
        ({
            let (c, r, a) = drift_spec(before, after);
            &&& c.no_duplicates() && r.no_duplicates() && a.no_duplicates()
            &&& forall|x: Seq<char>| #![trigger c.contains(x)] #![trigger r.contains(x)] !(c.contains(x) && r.contains(x))
            &&& forall|x: Seq<char>| #![trigger c.contains(x)] #![trigger a.contains(x)] !(c.contains(x) && a.contains(x))
            &&& forall|x: Seq<char>| #![trigger r.contains(x)] #![trigger a.contains(x)] !(r.contains(x) && a.contains(x))
            &&& forall|x: Seq<char>| #![trigger c.contains(x)] #![trigger r.contains(x)] #![trigger a.contains(x)]
                (c.contains(x) || r.contains(x) || a.contains(x)) ==> named_within(before, before.len() as int, x)
        }),
{
    lemma_drift_upto_disjoint(before, after, before.len() as int);
}

/// The six keywords that declare a definition whose body must not drift.
pub open spec fn is_definition_keyword(kw: Seq<char>) -> bool {
    kw == "def"@ || kw == "abbrev"@ || kw == "instance"@ || kw == "structure"@ || kw == "class"@
        || kw == "inductive"@
}

proof fn lemma_word_exclusive(text: Seq<char>, w: Seq<char>, kw: Seq<char>, k: int)
    requires
        starts_with_word_spec(text, kw),
        0 <= k < w.len(),
        k < kw.len(),
        w[k] != kw[k],
    ensures
        !starts_with_word_spec(text, w),
{
    assert(text.take(kw.len() as int)[k] == kw[k]);
    if starts_with_word_spec(text, w) {
        assert(text.take(w.len() as int)[k] == w[k]);
    }
}

/// A line (after modifiers) that starts with one of the definition keywords
/// as a word is a definition of that kind.
pub proof fn lemma_definition_keyword_recognized(text: Seq<char>, kw: Seq<char>)
    requires
        is_definition_keyword(kw),
        starts_with_word_spec(text, kw),
    ensures
        first_word_of(text, definition_kinds()) == Some(kw),
{
    reveal_strlit("def");
    reveal_strlit("abbrev");
    reveal_strlit("instance");
    reveal_strlit("structure");
    reveal_strlit("class");
    reveal_strlit("inductive");
    reveal_with_fuel(first_word_of, 7);
    let ks = definition_kinds();
    assert(ks.drop_first() =~= seq!["abbrev"@, "instance"@, "structure"@, "class"@, "inductive"@]);
    assert(ks.drop_first().drop_first() =~= seq!["instance"@, "structure"@, "class"@, "inductive"@]);
    assert(ks.drop_first().drop_first().drop_first() =~= seq!["structure"@, "class"@, "inductive"@]);
    assert(ks.drop_first().drop_first().drop_first().drop_first() =~= seq!["class"@, "inductive"@]);
    assert(ks.drop_first().drop_first().drop_first().drop_first().drop_first() =~= seq!["inductive"@]);
    let d = "def"@;
    let a = "abbrev"@;
    let ins = "instance"@;
    let st = "structure"@;
    let cl = "class"@;
    let ind = "inductive"@;
    if kw != d {
        lemma_word_exclusive(text, d, kw, 0);
    }
    if kw != a {
        lemma_word_exclusive(text, a, kw, 0);
    }
    if kw != ins {
        if kw == ind {
            lemma_word_exclusive(text, ins, kw, 2);
        } else {
            lemma_word_exclusive(text, ins, kw, 0);
        }
    }
    if kw != st {
        lemma_word_exclusive(text, st, kw, 0);
    }
    if kw != cl {
        lemma_word_exclusive(text, cl, kw, 0);
    }
}

proof fn lemma_defs_upto_keeps(ls: Seq<Seq<char>>, i: int, n: int, kw: Seq<char>)
    requires
        0 <= i < n <= ls.len(),
        def_kind_at(ls, i) == Some(kw),
    ensures
        exists|k: int| 0 <= k < defs_upto(ls, n).0.len() && (#[trigger] defs_upto(ls, n).0[k]).kind == kw,
    decreases n,
{
    let d = defs_upto(ls, n - 1).0;
    let a = defs_upto(ls, n - 1).1;
    if n - 1 == i {
        assert(def_at(ls, i, a) is Some);
        let x = def_at(ls, i, a).unwrap();
        assert(x.kind == kw);
        assert(defs_upto(ls, n).0 == d.push(x));
        assert(defs_upto(ls, n).0[d.len() as int] == x);
    } else {
        lemma_defs_upto_keeps(ls, i, n - 1, kw);
        let k = choose|k: int| 0 <= k < d.len() && (#[trigger] d[k]).kind == kw;
        match def_at(ls, n - 1, a) {
            Some(x) => {
                assert(defs_upto(ls, n).0 == d.push(x));
                assert(defs_upto(ls, n).0[k] == d[k]);
            },
            None => {
                assert(defs_upto(ls, n).0 == d);
            },
        }
    }
}

/// Every line of a source that (after modifiers) starts with `def`,
/// `abbrev`, `instance`, `structure`, `class` or `inductive` as a word is
/// captured in the definition snapshot as a definition of that kind, so a
/// round trip cannot drop any of them from the comparison.
pub proof fn lemma_definition_lines_captured(src: Seq<char>, i: int, kw: Seq<char>)
    requires
        0 <= i < lines_spec(strip_spec(src)).len(),
        is_definition_keyword(kw),
        starts_with_word_spec(strip_mods_spec(lines_spec(strip_spec(src))[i]), kw),
    ensures
        exists|k: int|
            0 <= k < snapshot_definitions_spec(src).len() && (#[trigger] snapshot_definitions_spec(src)[k]).kind == kw,
{
    let ls = lines_spec(strip_spec(src));
    lemma_definition_keyword_recognized(strip_mods_spec(ls[i]), kw);
    assert(def_kind_at(ls, i) == Some(kw));
    lemma_defs_upto_keeps(ls, i, ls.len() as int, kw);
    assert(snapshot_definitions_spec(src) == defs_upto(ls, ls.len() as int).0);
    let k = choose|k: int| 0 <= k < defs_upto(ls, ls.len() as int).0.len() && (#[trigger] defs_upto(
        ls,
        ls.len() as int,
    ).0[k]).kind == kw;
    assert(snapshot_definitions_spec(src)[k].kind == kw);
}

proof fn lemma_drift_records(before: Seq<SDef>, after: Seq<SDef>, k: int, n: int)
    requires
        0 <= k < n <= before.len(),
        def_names_distinct(before),
        count_named(after, before[k].name) <= 1,
    ensures
        ({
            let x = before[k].name;
            let (c, r, a) = drift_upto(before, after, n);
            &&& (first_named(after, x) matches Some(d) && (d.text != before[k].text || d.kind != before[k].kind)) ==> c.contains(x)
            &&& first_named(after, x) is None ==> r.contains(x)
        }),
    decreases n,
{
    let x = before[k].name;
    let (c0, r0, a0) = drift_upto(before, after, n - 1);
    let (c, r, a) = drift_upto(before, after, n);
    if n - 1 == k {
        lemma_count_distinct(before, k);
        if named_earlier(before, k) {
            let j = choose|j: int| 0 <= j < k && #[trigger] before[j].name == before[k].name;
        }
        if first_named(after, x) matches Some(d) && (d.text != before[k].text || d.kind != before[k].kind) {
            assert(c == c0.push(x));
            assert(c[c0.len() as int] == x);
        }
        if first_named(after, x) is None {
            assert(r == r0.push(x));
            assert(r[r0.len() as int] == x);
        }
    } else {
        lemma_drift_records(before, after, k, n - 1);
        if c0.contains(x) {
            let i = choose|i: int| 0 <= i < c0.len() && c0[i] == x;
            assert(c[i] == x);
        }
        if r0.contains(x) {
            let i = choose|i: int| 0 <= i < r0.len() && r0[i] == x;
            assert(r[i] == x);
        }
    }
}

/// A definition of the earlier snapshot (whose names are distinct) is
/// reported as changed when the later snapshot holds exactly one definition
/// of that name with another text or kind, and as removed when the later
/// snapshot holds none; either way the round trip is not preserved.
pub proof fn lemma_drifted_definition_reported(before: Seq<SDef>, after: Seq<SDef>, k: int)
    requires
        0 <= k < before.len(),
        def_names_distinct(before),
        count_named(after, before[k].name) <= 1,
    ensures
        ({
            let x = before[k].name;
            let (c, r, a) = drift_spec(before, after);
            &&& (first_named(after, x) matches Some(d) && (d.text != before[k].text || d.kind != before[k].kind)) ==> c.contains(x)
            &&& first_named(after, x) is None ==> r.contains(x)
        }),
{
    lemma_drift_records(before, after, k, before.len() as int);
}
} // verus!
