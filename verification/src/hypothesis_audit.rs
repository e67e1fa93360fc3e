//! Hypothesis-discharge audit: is a theorem silently conditional on
//! unproved mathematics carried in its own signature?
//!
//! The delivered declaration for the canonical name is located, every
//! bracketed binder of its signature is enumerated, and each binder whose
//! type resolves to a `def … : Prop`, a `structure` / `class`, or (for a
//! hypothesis-named binder) a bare unresolved identifier is classified as
//! discharged (a proof or instance exists elsewhere in the submission),
//! allowlisted (a designated input of the task), or unaccounted. Any
//! unaccounted hypothesis, or any parse failure, makes the report unclean.
//! Only Lean 4 syntax is audited; other systems are reported as not
//! applicable.
use vstd::prelude::*;
use crate::formal::{system_tag, FormalSystem, ScanReport};
use crate::statement_preservation::{closer, is_word, opener, sanitize_chars, sanitize_spec, word_at, word_at_exec};
use crate::statement_signature::{
    bracket_close, group_end, ident_end, norm_string, skip_white, statement_colon_from,
};
use crate::text::{
    char_is_alphabetic, chars_eq, first_where, chars_of, class_pred, contains_at, contains_spec, find_class,
    ident_char, is_alpha, is_word_char, join, lemma_join_push, lines_spec, line_windows,
    lemma_line_window, line_windows_of, normalize_ws, normalize_ws_spec, owned, push_decimal,
    decimal, skip_class, string_of, string_of_range, white_pred, word_list, words_view, CharClass,
};

verus! {

// ===========================================================================
// Report types
// ===========================================================================

/// Whether a hypothesis binder is accounted for.
#[derive(Debug, Clone, Copy, PartialEq, Eq, Structural)]
pub enum HypothesisStatus {
    /// A proof, instance or term of the proposition exists in the submission.
    Discharged,
    /// The caller declared the binder (or its type) a designated input.
    Allowlisted,
    /// Neither: the theorem is silently conditional on it.
    Unaccounted,
}

/// The stable tag of a status.
pub open spec fn status_tag(s: HypothesisStatus) -> Seq<char> {
    match s {
        HypothesisStatus::Discharged => "discharged"@,
        HypothesisStatus::Allowlisted => "allowlisted"@,
        HypothesisStatus::Unaccounted => "unaccounted"@,
    }
}

impl HypothesisStatus {
    /// Stable tag for findings and reports.
    pub fn tag(self) -> (r: &'static str)
        ensures
            r@ == status_tag(self),
    {
        match self {
            HypothesisStatus::Discharged => "discharged",
            HypothesisStatus::Allowlisted => "allowlisted",
            HypothesisStatus::Unaccounted => "unaccounted",
        }
    }
}

/// What kind of assumption a flagged binder carries.
#[derive(Debug, Clone, Copy, PartialEq, Eq, Structural)]
pub enum HypothesisFlavor {
    /// The type head is a `def` / `abbrev … : Prop` declared in the submission.
    PropDef,
    /// The type head is a `structure` / `class` declared in the submission.
    Bundle,
    /// The type is one unresolved bare identifier and the binder is named
    /// like a hypothesis (`h` / `H` prefix).
    Opaque,
}

/// The stable tag of a flavor.
pub open spec fn flavor_tag(f: HypothesisFlavor) -> Seq<char> {
    match f {
        HypothesisFlavor::PropDef => "prop_def"@,
        HypothesisFlavor::Bundle => "bundle"@,
        HypothesisFlavor::Opaque => "opaque"@,
    }
}

impl HypothesisFlavor {
    /// Stable tag for findings and reports.
    pub fn tag(self) -> (r: &'static str)
        ensures
            r@ == flavor_tag(self),
    {
        match self {
            HypothesisFlavor::PropDef => "prop_def",
            HypothesisFlavor::Bundle => "bundle",
            HypothesisFlavor::Opaque => "opaque",
        }
    }
}

/// One audited hypothesis binder.
#[derive(Debug, Clone, PartialEq, Eq)]
pub struct Hypothesis {
    /// Binder name (`_` for an anonymous binder).
    pub name: String,
    /// Binder type, whitespace-normalized.
    pub ty: String,
    /// The head identifier of the type.
    pub head: String,
    /// Which assumption mechanism it carries.
    pub flavor: HypothesisFlavor,
    /// Discharged, allowlisted or unaccounted.
    pub status: HypothesisStatus,
    /// The declaration that discharges it, when discharged.
    pub witness: Option<String>,
}

/// A field of an assumption-bundling structure.
#[derive(Debug, Clone, PartialEq, Eq)]
pub struct StructField {
    pub name: String,
    pub ty: String,
}

/// An assumption-bundling `structure` / `class` used as a hypothesis type.
#[derive(Debug, Clone, PartialEq, Eq)]
pub struct BundleStructure {
    /// Its name.
    pub name: String,
    /// `structure` or `class`.
    pub kind: String,
    /// The properties it bundles, in order.
    pub fields: Vec<StructField>,
    /// Whether any instance or term of it is constructed in the submission.
    pub instantiated: bool,
}

/// The models of a sequence of fields.
pub open spec fn fields_view(fs: Seq<StructField>) -> Seq<(Seq<char>, Seq<char>)> {
    fs.map_values(|f: StructField| (f.name@, f.ty@))
}

// ===========================================================================
// Lean declarations
// ===========================================================================

/// The declaration keywords recognized, tried in this order.
pub open spec fn audit_keywords() -> Seq<Seq<char>> {
    seq![
        "theorem"@, "lemma"@, "example"@, "instance"@, "structure"@, "class"@, "abbrev"@, "def"@,
        "axiom"@, "opaque"@,
    ]
}

/// Whether `w` occurs at `i` as a whole token.
pub open spec fn token_at(s: Seq<char>, i: int, w: Seq<char>) -> bool {
    (i == 0 || (0 < i <= s.len() && !is_word_char(s[i - 1]))) && word_at(s, i, w)
}

/// The first of `audit_keywords()[k..]` occurring at `i` as a token.
pub open spec fn akw_from(s: Seq<char>, i: int, k: int) -> Option<int>
    decreases 10 - k,
{
    if k < 0 || k >= 10 {
        None
    } else if token_at(s, i, audit_keywords()[k]) {
        Some(k)
    } else {
        akw_from(s, i, k + 1)
    }
}

/// How a declaration's signature ended.
#[derive(Debug, Clone, Copy, PartialEq, Eq, Structural)]
pub enum SigEnd {
    /// A top-level `:=`.
    Assign,
    /// A top-level `where`.
    Where,
    /// The next top-level declaration keyword.
    NextDecl,
    /// The end of input.
    Eof,
}

/// Where a signature scanned from `i` at bracket depth `depth` ends, and
/// how: a top-level `:=`, a top-level `where`, the next top-level
/// declaration keyword, or the end.
pub open spec fn asig_end(s: Seq<char>, i: int, depth: nat) -> (int, SigEnd)
    decreases s.len() - i,
{
    if i < 0 || i >= s.len() {
        (s.len() as int, SigEnd::Eof)
    } else if opener(s[i]) {
        asig_end(s, i + 1, depth + 1)
    } else if closer(s[i]) {
        asig_end(s, i + 1, if depth > 0 { (depth - 1) as nat } else { 0 })
    } else if s[i] == ':' && depth == 0 && i + 1 < s.len() && s[i + 1] == '=' {
        (i, SigEnd::Assign)
    } else if depth == 0 && token_at(s, i, "where"@) {
        (i, SigEnd::Where)
    } else if depth == 0 && akw_from(s, i, 0) is Some {
        (i, SigEnd::NextDecl)
    } else {
        asig_end(s, i + 1, depth)
    }
}

/// Where a body or field region scanned from `i` at `depth` ends: the next
/// top-level declaration keyword, or the end.
pub open spec fn aregion_end(s: Seq<char>, i: int, depth: nat) -> int
    decreases s.len() - i,
{
    if i < 0 || i >= s.len() {
        s.len() as int
    } else if opener(s[i]) {
        aregion_end(s, i + 1, depth + 1)
    } else if closer(s[i]) {
        aregion_end(s, i + 1, if depth > 0 { (depth - 1) as nat } else { 0 })
    } else if depth == 0 && akw_from(s, i, 0) is Some {
        i
    } else {
        aregion_end(s, i + 1, depth)
    }
}

/// `x` clamped to `[0, n]`.
pub open spec fn cl(x: int, n: int) -> int {
    if x < 0 { 0 } else if x > n { n } else { x }
}

/// The binders and conclusion of a region, split at its statement colon
/// (raw, not normalized); without one, all binders.
pub open spec fn split_raw(sig: Seq<char>) -> (Seq<char>, Seq<char>) {
    match statement_colon_from(sig, 0, 0) {
        Some(c) => (sig.take(c), sig.skip(c + 1)),
        None => (sig, Seq::empty()),
    }
}

/// A finished name run, unless empty or the anonymous `_`.
pub open spec fn emit_name(cur: Seq<char>) -> Seq<Seq<char>> {
    if cur.len() > 0 && cur != seq!['_'] { seq![cur] } else { Seq::empty() }
}

/// The maximal runs of name characters (identifier characters and `.`) of
/// `s` from `i`, `cur` being the run in progress; `_` is left out.
pub open spec fn name_runs(s: Seq<char>, i: int, cur: Seq<char>) -> Seq<Seq<char>>
    decreases s.len() - i,
{
    if i < 0 || i >= s.len() {
        emit_name(cur)
    } else if ident_char(s[i]) {
        name_runs(s, i + 1, cur.push(s[i]))
    } else {
        emit_name(cur) + name_runs(s, i + 1, Seq::empty())
    }
}

/// The identifiers of `s`.
pub open spec fn split_names(s: Seq<char>) -> Seq<Seq<char>> {
    name_runs(s, 0, Seq::empty())
}

/// The model of a binder group: its names and its normalized type.
pub ghost struct SGroup {
    pub names: Seq<Seq<char>>,
    pub ty: Seq<char>,
}

/// The bracketed binder groups of `b` from `i` on.
pub open spec fn groups_from(b: Seq<char>, i: int) -> Seq<SGroup>
    decreases b.len() - i,
{
    if i < 0 || i >= b.len() {
        Seq::empty()
    } else {
        match bracket_close(b[i]) {
            None => groups_from(b, i + 1),
            Some(cl) => {
                let k = group_end(b, b[i], cl, i + 1, 1);
                let inner = b.subrange(i + 1, k);
                let (np, tp) = split_raw(inner);
                let g = SGroup {
                    names: if tp.len() == 0 { Seq::empty() } else { split_names(np) },
                    ty: normalize_ws_spec(if tp.len() == 0 { np } else { tp }),
                };
                if i < k && k < b.len() { seq![g] + groups_from(b, k + 1) } else { seq![g] }
            },
        }
    }
}

/// The fields of one `where` line: each identifier before the colon with
/// the normalized type after it; none when the type is empty.
pub open spec fn line_fields(line: Seq<char>) -> Seq<(Seq<char>, Seq<char>)> {
    let (np, tp) = split_raw(line);
    let ty = normalize_ws_spec(tp);
    if ty.len() == 0 { Seq::empty() } else { split_names(np).map_values(|n: Seq<char>| (n, ty)) }
}

/// The fields of the lines `ls[..n]`.
pub open spec fn where_fields_upto(ls: Seq<Seq<char>>, n: int) -> Seq<(Seq<char>, Seq<char>)>
    decreases n,
{
    if n <= 0 { Seq::empty() } else { where_fields_upto(ls, n - 1) + line_fields(ls[n - 1]) }
}

/// The fields of the groups `gs[..n]`: one per bound name.
pub open spec fn group_fields_upto(gs: Seq<SGroup>, n: int) -> Seq<(Seq<char>, Seq<char>)>
    decreases n,
{
    if n <= 0 {
        Seq::empty()
    } else {
        group_fields_upto(gs, n - 1) + gs[n - 1].names.map_values(|nm: Seq<char>| (nm, normalize_ws_spec(gs[n - 1].ty)))
    }
}

/// Whether a keyword introduces a `structure` / `class`.
pub open spec fn is_structure_kind(k: Seq<char>) -> bool {
    k == "structure"@ || k == "class"@
}

/// Whether a keyword introduces a theorem-like declaration.
pub open spec fn is_theorem_kind(k: Seq<char>) -> bool {
    k == "theorem"@ || k == "lemma"@ || k == "example"@
}

/// Whether a keyword introduces a declaration that can inhabit a type.
pub open spec fn is_inhabiting_kind(k: Seq<char>) -> bool {
    k == "theorem"@ || k == "lemma"@ || k == "example"@ || k == "instance"@ || k == "def"@ || k == "abbrev"@
}

/// The model of a parsed declaration.
pub ghost struct SDecl {
    pub kind: Seq<char>,
    pub name: Seq<char>,
    pub binders: Seq<char>,
    pub conclusion: Seq<char>,
    pub fields: Seq<(Seq<char>, Seq<char>)>,
    pub body: Seq<char>,
}

/// The declaration whose keyword (number `k`) ends at `after_kw`, and where
/// its signature ends.
pub open spec fn adecl_at(s: Seq<char>, k: int, after_kw: int) -> Option<(SDecl, int)> {
    let kw = audit_keywords()[k];
    let n = s.len() as int;
    let j = skip_white(s, after_kw);
    let ne = ident_end(s, j);
    let anonymous = k == 2 || k == 3;
    if ne == j && !anonymous {
        None
    } else {
        let name = if ne == j { "<"@ + kw + ">"@ } else { s.subrange(j, ne) };
        let (se, term) = asig_end(s, ne, 0);
        let (b, c) = split_raw(s.subrange(ne, cl(se, n)));
        let (fields, body) = if term == SigEnd::Where {
            let from = cl(se + 5, n);
            let to = cl(aregion_end(s, from, 0), n);
            (if k == 4 || k == 5 { where_fields_upto(lines_spec(s.subrange(from, to)), lines_spec(s.subrange(from, to)).len() as int) } else { Seq::empty() }, Seq::empty())
        } else if term == SigEnd::Assign {
            let from = cl(se + 2, n);
            let to = cl(aregion_end(s, from, 0), n);
            let region = s.subrange(from, to);
            (
                if k == 4 || k == 5 {
                    let gs = groups_from(region, 0);
                    group_fields_upto(gs, gs.len() as int)
                } else {
                    Seq::empty()
                },
                normalize_ws_spec(region),
            )
        } else {
            (Seq::empty(), Seq::empty())
        };
        Some((
            SDecl { kind: kw, name, binders: normalize_ws_spec(b), conclusion: normalize_ws_spec(c), fields, body },
            se,
        ))
    }
}

/// The declarations of the sanitized `s` from `i` on.
pub open spec fn adecls_from(s: Seq<char>, i: int) -> Seq<SDecl>
    decreases s.len() - i,
{
    if i < 0 || i >= s.len() {
        Seq::empty()
    } else {
        let found = if i == 0 || !is_word_char(s[i - 1]) {
            match akw_from(s, i, 0) {
                Some(k) => adecl_at(s, k, i + audit_keywords()[k].len()),
                None => None,
            }
        } else {
            None
        };
        match found {
            Some((d, e)) => seq![d] + adecls_from(s, cl(if e > i + 1 { e } else { i + 1 }, s.len() as int)),
            None => adecls_from(s, i + 1),
        }
    }
}

/// Every declaration of a Lean source, located over its sanitized text.
pub open spec fn audit_decls(src: Seq<char>) -> Seq<SDecl> {
    adecls_from(sanitize_spec(src), 0)
}

// ===========================================================================
// Parsing, computed
// ===========================================================================

/// [`token_at`] computed.
fn token_at_exec(s: &Vec<char>, i: usize, w: &Vec<char>) -> (r: bool)
    requires
        i <= s@.len(),
    ensures
        r == token_at(s@, i as int, w@),
{
    (i == 0 || !is_word(s[i - 1])) && word_at_exec(s, i, w)
}

/// [`akw_from`] from keyword 0, given the keyword list.
fn akw_exec(s: &Vec<char>, i: usize, kws: &Vec<Vec<char>>) -> (r: Option<usize>)
    requires
        i <= s@.len(),
        kws@.len() == 10,
        words_view(kws@) == audit_keywords(),
    ensures
        match r {
            Some(k) => k < 10 && akw_from(s@, i as int, 0) == Some(k as int),
            None => akw_from(s@, i as int, 0) is None,
        },
{
    let mut k: usize = 0;
    while k < 10
        invariant
            k <= 10,
            i <= s@.len(),
            kws@.len() == 10,
            words_view(kws@) == audit_keywords(),
            akw_from(s@, i as int, 0) == akw_from(s@, i as int, k as int),
        decreases 10 - k,
    {
        assert(words_view(kws@)[k as int] == kws@[k as int]@);
        if token_at_exec(s, i, &kws[k]) {
            return Some(k);
        }
        k = k + 1;
    }
    None
}

/// The keyword list.
fn audit_keyword_list() -> (r: Vec<Vec<char>>)
    ensures
        r@.len() == 10,
        words_view(r@) == audit_keywords(),
{
    let r = word_list(&["theorem", "lemma", "example", "instance", "structure", "class", "abbrev", "def", "axiom", "opaque"]);
    assert(words_view(r@) =~= audit_keywords());
    r
}

/// [`asig_end`] from `start` at depth 0.
fn asig_end_exec(s: &Vec<char>, start: usize, kws: &Vec<Vec<char>>) -> (r: (usize, SigEnd))
    requires
        start <= s@.len(),
        kws@.len() == 10,
        words_view(kws@) == audit_keywords(),
    ensures
        (r.0 as int, r.1) == asig_end(s@, start as int, 0),
        start <= r.0 <= s@.len(),
{
    let n = s.len();
    let wh = chars_of("where");
    let mut depth: usize = 0;
    let mut i: usize = start;
    while i < n
        invariant
            start <= i <= n == s@.len(),
            depth <= i,
            wh@ == "where"@,
            kws@.len() == 10,
            words_view(kws@) == audit_keywords(),
            asig_end(s@, start as int, 0) == asig_end(s@, i as int, depth as nat),
        decreases n - i,
    {
        let c = s[i];
        if c == '(' || c == '[' || c == '{' || c == '⟨' || c == '⦃' {
            depth = depth + 1;
        } else if c == ')' || c == ']' || c == '}' || c == '⟩' || c == '⦄' {
            if depth > 0 {
                depth = depth - 1;
            }
        } else if c == ':' && depth == 0 && i + 1 < n && s[i + 1] == '=' {
            return (i, SigEnd::Assign);
        } else if depth == 0 && token_at_exec(s, i, &wh) {
            return (i, SigEnd::Where);
        } else if depth == 0 && akw_exec(s, i, kws).is_some() {
            return (i, SigEnd::NextDecl);
        }
        i = i + 1;
    }
    (n, SigEnd::Eof)
}

/// [`aregion_end`] from `start` at depth 0.
fn aregion_end_exec(s: &Vec<char>, start: usize, kws: &Vec<Vec<char>>) -> (r: usize)
    requires
        start <= s@.len(),
        kws@.len() == 10,
        words_view(kws@) == audit_keywords(),
    ensures
        r as int == aregion_end(s@, start as int, 0),
        start <= r <= s@.len(),
{
    let n = s.len();
    let mut depth: usize = 0;
    let mut i: usize = start;
    while i < n
        invariant
            start <= i <= n == s@.len(),
            depth <= i,
            kws@.len() == 10,
            words_view(kws@) == audit_keywords(),
            aregion_end(s@, start as int, 0) == aregion_end(s@, i as int, depth as nat),
        decreases n - i,
    {
        let c = s[i];
        if c == '(' || c == '[' || c == '{' || c == '⟨' || c == '⦃' {
            depth = depth + 1;
        } else if c == ')' || c == ']' || c == '}' || c == '⟩' || c == '⦄' {
            if depth > 0 {
                depth = depth - 1;
            }
        } else if depth == 0 && akw_exec(s, i, kws).is_some() {
            return i;
        }
        i = i + 1;
    }
    n
}

/// The identifiers of `r` (see [`split_names`]).
fn names_of(r: &Vec<char>) -> (out: Vec<String>)
    ensures
        out@.map_values(|x: String| x@) == split_names(r@),
{
    let n = r.len();
    let mut out: Vec<String> = Vec::new();
    let mut cur: Vec<char> = Vec::new();
    let mut i: usize = 0;
    while i < n
        invariant
            i <= n == r@.len(),
            out@.map_values(|x: String| x@) + name_runs(r@, i as int, cur@) == split_names(r@),
        decreases n - i,
    {
        let c = r[i];
        if class_has_ident(c) {
            cur.push(c);
        } else {
            let ghost o0 = out@.map_values(|x: String| x@);
            let ghost c0 = cur@;
            let keep = cur.len() > 0 && !(cur.len() == 1 && cur[0] == '_');
            proof {
                if cur@.len() == 1 && cur@[0] == '_' {
                    assert(cur@ =~= seq!['_']);
                } else if cur@.len() > 0 {
                    assert(cur@ != seq!['_']);
                }
            }
            if keep {
                out.push(string_of(&cur));
                assert(out@.map_values(|x: String| x@) =~= o0 + emit_name(c0));
            } else {
                assert(o0 + emit_name(c0) =~= o0);
            }
            assert(o0 + emit_name(c0) + name_runs(r@, i + 1, Seq::empty()) =~= o0 + name_runs(r@, i as int, c0));
            cur = Vec::new();
        }
        i = i + 1;
    }
    let ghost o0 = out@.map_values(|x: String| x@);
    let ghost c0 = cur@;
    let keep = cur.len() > 0 && !(cur.len() == 1 && cur[0] == '_');
    proof {
        if cur@.len() == 1 && cur@[0] == '_' {
            assert(cur@ =~= seq!['_']);
        } else if cur@.len() > 0 {
            assert(cur@ != seq!['_']);
        }
    }
    if keep {
        out.push(string_of(&cur));
        assert(out@.map_values(|x: String| x@) =~= o0 + emit_name(c0));
    } else {
        assert(o0 + emit_name(c0) =~= o0);
    }
    out
}

/// Exec [`ident_char`].
fn class_has_ident(c: char) -> (r: bool)
    ensures
        r == ident_char(c),
{
    crate::text::class_has(CharClass::NonIdent, c) == false
}

/// The window `v[lo..hi]` as its own vector.
pub(crate) fn window(v: &Vec<char>, lo: usize, hi: usize) -> (r: Vec<char>)
    requires
        lo <= hi <= v@.len(),
    ensures
        r@ == v@.subrange(lo as int, hi as int),
{
    let mut r: Vec<char> = Vec::new();
    crate::text::extend_chars(&mut r, v, lo, hi);
    assert(r@ =~= v@.subrange(lo as int, hi as int));
    r
}

/// A binder group.
struct BinderGroup {
    pub(crate) names: Vec<String>,
    pub(crate) ty: String,
}

/// The model of a binder group.
spec fn group_view(g: BinderGroup) -> SGroup {
    SGroup { names: g.names@.map_values(|x: String| x@), ty: g.ty@ }
}

/// The models of binder groups.
spec fn groups_view(gs: Seq<BinderGroup>) -> Seq<SGroup> {
    gs.map_values(|g: BinderGroup| group_view(g))
}

/// The raw binder and type parts of `r`.
fn split_parts(r: &Vec<char>) -> (out: (Vec<char>, Vec<char>))
    ensures
        (out.0@, out.1@) == split_raw(r@),
{
    assert(r@.subrange(0, r@.len() as int) == r@);
    match crate::statement_signature::statement_colon(r, 0, r.len()) {
        Some(c) => {
            let a = window(r, 0, c);
            let b = window(r, c + 1, r.len());
            assert(a@ == r@.take(c as int));
            assert(b@ == r@.skip(c + 1));
            (a, b)
        },
        None => (window(r, 0, r.len()), Vec::new()),
    }
}

/// The bracketed binder groups of `b` (see [`groups_from`]).
fn binder_groups(b: &Vec<char>) -> (r: Vec<BinderGroup>)
    ensures
        groups_view(r@) == groups_from(b@, 0),
{
    let n = b.len();
    let mut out: Vec<BinderGroup> = Vec::new();
    let mut i: usize = 0;
    assert(groups_view(out@) + groups_from(b@, 0) =~= groups_from(b@, 0));
    while i < n
        invariant
            i <= n == b@.len(),
            groups_view(out@) + groups_from(b@, i as int) == groups_from(b@, 0),
        decreases n - i,
    {
        let c = b[i];
        let cl: Option<char> = if c == '(' {
            Some(')')
        } else if c == '{' {
            Some('}')
        } else if c == '[' {
            Some(']')
        } else if c == '⟨' {
            Some('⟩')
        } else if c == '⦃' {
            Some('⦄')
        } else {
            None
        };
        assert(cl == bracket_close(b@[i as int]));
        match cl {
            None => {
                i = i + 1;
            },
            Some(close) => {
                let k = crate::statement_signature::group_end_exec(b, c, close, i + 1);
                proof {
                    crate::statement_signature::lemma_group_end(b@, c, close, i + 1, 1);
                }
                let inner = window(b, i + 1, k);
                let (np, tp) = split_parts(&inner);
                let (names, tyv) = if tp.len() == 0 {
                    let v: Vec<String> = Vec::new();
                    assert(v@.map_values(|x: String| x@) =~= Seq::<Seq<char>>::empty());
                    (v, np)
                } else {
                    (names_of(&np), tp)
                };
                assert(tyv@.subrange(0, tyv@.len() as int) == tyv@);
                let ty = normalize_ws(&tyv, 0, tyv.len());
                let g = BinderGroup { names, ty: string_of(&ty) };
                let ghost gv = group_view(g);
                let ghost o0 = groups_view(out@);
                out.push(g);
                assert(groups_view(out@) =~= o0.push(gv));
                if k < n {
                    assert(o0.push(gv) + groups_from(b@, k + 1) =~= o0 + groups_from(b@, i as int));
                    i = k + 1;
                } else {
                    assert(o0.push(gv) + groups_from(b@, n as int) =~= o0 + groups_from(b@, i as int));
                    i = n;
                }
            },
        }
    }
    assert(groups_view(out@) + Seq::<SGroup>::empty() =~= groups_view(out@));
    out
}

/// The fields of the groups (see [`group_fields_upto`]).
fn fields_of_groups(gs: &Vec<BinderGroup>) -> (r: Vec<StructField>)
    ensures
        fields_view(r@) == group_fields_upto(groups_view(gs@), gs@.len() as int),
{
    let ghost gv = groups_view(gs@);
    let mut out: Vec<StructField> = Vec::new();
    let mut i: usize = 0;
    while i < gs.len()
        invariant
            i <= gs@.len(),
            gv == groups_view(gs@),
            fields_view(out@) == group_fields_upto(gv, i as int),
        decreases gs@.len() - i,
    {
        let g = &gs[i];
        assert(gv[i as int] == group_view(*g));
        let ty = norm_string(g.ty.as_str());
        let ghost base = fields_view(out@);
        let ghost nv = g.names@.map_values(|x: String| x@);
        let mut j: usize = 0;
        while j < g.names.len()
            invariant
                j <= g.names@.len(),
                nv == g.names@.map_values(|x: String| x@),
                fields_view(out@) == base + nv.take(j as int).map_values(|nm: Seq<char>| (nm, ty@)),
            decreases g.names@.len() - j,
        {
            let ghost o0 = fields_view(out@);
            out.push(StructField { name: g.names[j].clone(), ty: ty.clone() });
            assert(fields_view(out@) =~= o0.push((nv[j as int], ty@)));
            assert(nv.take(j + 1).map_values(|nm: Seq<char>| (nm, ty@)) =~= nv.take(j as int).map_values(
                |nm: Seq<char>| (nm, ty@),
            ).push((nv[j as int], ty@)));
            j = j + 1;
        }
        assert(nv.take(g.names@.len() as int) == nv);
        assert(fields_view(out@) =~= group_fields_upto(gv, i + 1));
        i = i + 1;
    }
    out
}

/// The fields of a `where` region (see [`where_fields_upto`]).
fn where_fields(region: &Vec<char>) -> (r: Vec<StructField>)
    ensures
        fields_view(r@) == where_fields_upto(lines_spec(region@), lines_spec(region@).len() as int),
{
    let ws = line_windows(region);
    let ghost ls = lines_spec(region@);
    let mut out: Vec<StructField> = Vec::new();
    let mut i: usize = 0;
    while i < ws.len()
        invariant
            line_windows_of(region@, ws@),
            ws@.len() == ls.len(),
            ls == lines_spec(region@),
            i <= ws@.len(),
            fields_view(out@) == where_fields_upto(ls, i as int),
        decreases ws@.len() - i,
    {
        let (a, b) = ws[i];
        proof {
            lemma_line_window(region@, ws@, i as int);
        }
        let line = window(region, a, b);
        let (np, tp) = split_parts(&line);
        assert(tp@.subrange(0, tp@.len() as int) == tp@);
        let ty = normalize_ws(&tp, 0, tp.len());
        let ghost o0 = fields_view(out@);
        if ty.len() > 0 {
            let names = names_of(&np);
            let ghost nv = names@.map_values(|x: String| x@);
            let tys = string_of(&ty);
            let mut j: usize = 0;
            while j < names.len()
                invariant
                    j <= names@.len(),
                    nv == names@.map_values(|x: String| x@),
                    tys@ == ty@,
                    fields_view(out@) == o0 + nv.take(j as int).map_values(|nm: Seq<char>| (nm, ty@)),
                decreases names@.len() - j,
            {
                let ghost o1 = fields_view(out@);
                out.push(StructField { name: names[j].clone(), ty: tys.clone() });
                assert(fields_view(out@) =~= o1.push((nv[j as int], ty@)));
                assert(nv.take(j + 1).map_values(|nm: Seq<char>| (nm, ty@)) =~= nv.take(j as int).map_values(
                    |nm: Seq<char>| (nm, ty@),
                ).push((nv[j as int], ty@)));
                j = j + 1;
            }
            assert(nv.take(names@.len() as int) == nv);
        } else {
            assert(line_fields(line@) =~= Seq::<(Seq<char>, Seq<char>)>::empty());
        }
        assert(fields_view(out@) =~= where_fields_upto(ls, i + 1));
        i = i + 1;
    }
    out
}

/// A parsed declaration.
pub(crate) struct Decl {
    pub(crate) kind: String,
    pub(crate) name: String,
    pub(crate) binders: String,
    pub(crate) conclusion: String,
    pub(crate) fields: Vec<StructField>,
    pub(crate) body: String,
}

/// The model of a declaration.
pub(crate) open spec fn decl_view(d: Decl) -> SDecl {
    SDecl {
        kind: d.kind@,
        name: d.name@,
        binders: d.binders@,
        conclusion: d.conclusion@,
        fields: fields_view(d.fields@),
        body: d.body@,
    }
}

/// The models of declarations.
pub(crate) open spec fn decls_view(ds: Seq<Decl>) -> Seq<SDecl> {
    ds.map_values(|d: Decl| decl_view(d))
}

/// [`adecl_at`] computed.
#[verifier::spinoff_prover]
fn adecl_at_exec(s: &Vec<char>, k: usize, after_kw: usize, kws: &Vec<Vec<char>>) -> (r: Option<(Decl, usize)>)
    requires
        k < 10,
        after_kw <= s@.len(),
        kws@.len() == 10,
        words_view(kws@) == audit_keywords(),
    ensures
        match r {
            Some((d, e)) => adecl_at(s@, k as int, after_kw as int) == Some((decl_view(d), e as int)) && e <= s@.len(),
            None => adecl_at(s@, k as int, after_kw as int) is None,
        },
{
    let n = s.len();
    assert(words_view(kws@)[k as int] == kws@[k as int]@);
    let kw = &kws[k];
    let j = skip_class(s, after_kw, n, CharClass::White);
    proof {
        assert(class_pred(CharClass::White) == white_pred());
        assert(s@.skip(after_kw as int) == s@.subrange(after_kw as int, n as int));
    }
    let ne = find_class(s, j, n, CharClass::NonIdent);
    assert(s@.skip(j as int) == s@.subrange(j as int, n as int));
    let anonymous = k == 2 || k == 3;
    if ne == j && !anonymous {
        return None;
    }
    let name = if ne == j {
        let mut m = owned("<");
        crate::text::push_range(&mut m, kw, 0, kw.len());
        m.append(">");
        assert(kw@.subrange(0, kw@.len() as int) == kw@);
        m
    } else {
        string_of_range(s, j, ne)
    };
    let (se, term) = asig_end_exec(s, ne, kws);
    let sig = window(s, ne, se);
    let (bp, cp) = split_parts(&sig);
    assert(bp@.subrange(0, bp@.len() as int) == bp@);
    assert(cp@.subrange(0, cp@.len() as int) == cp@);
    let binders = normalize_ws(&bp, 0, bp.len());
    let conclusion = normalize_ws(&cp, 0, cp.len());
    let structure = k == 4 || k == 5;
    let mut fields: Vec<StructField> = Vec::new();
    let mut body = String::new();
    match term {
        SigEnd::Where => {
            let from = if n - se > 5 { se + 5 } else { n };
            let to = aregion_end_exec(s, from, kws);
            if structure {
                let region = window(s, from, to);
                fields = where_fields(&region);
            }
        },
        SigEnd::Assign => {
            let from = if n - se > 2 { se + 2 } else { n };
            let to = aregion_end_exec(s, from, kws);
            let region = window(s, from, to);
            if structure {
                let gs = binder_groups(&region);
                fields = fields_of_groups(&gs);
            }
            assert(region@.subrange(0, region@.len() as int) == region@);
            let bv = normalize_ws(&region, 0, region.len());
            body = string_of(&bv);
        },
        _ => {},
    }
    assert(fields_view(fields@) =~= fields_view(fields@));
    let d = Decl {
        kind: string_of(kw),
        name,
        binders: string_of(&binders),
        conclusion: string_of(&conclusion),
        fields,
        body,
    };
    assert(decl_view(d).fields == adecl_at(s@, k as int, after_kw as int)->Some_0.0.fields);
    Some((d, se))
}

/// Every declaration of the sanitized `s` (see [`adecls_from`]).
fn decls_of_sanitized(s: &Vec<char>) -> (r: Vec<Decl>)
    ensures
        decls_view(r@) == adecls_from(s@, 0),
{
    let kws = audit_keyword_list();
    let n = s.len();
    let mut out: Vec<Decl> = Vec::new();
    let mut i: usize = 0;
    assert(decls_view(out@) + adecls_from(s@, 0) =~= adecls_from(s@, 0));
    while i < n
        invariant
            i <= n == s@.len(),
            kws@.len() == 10,
            words_view(kws@) == audit_keywords(),
            decls_view(out@) + adecls_from(s@, i as int) == adecls_from(s@, 0),
        decreases n - i,
    {
        let ghost o0 = decls_view(out@);
        let mut found: Option<(Decl, usize)> = None;
        if i == 0 || !is_word(s[i - 1]) {
            if let Some(k) = akw_exec(s, i, &kws) {
                assert(words_view(kws@)[k as int] == kws@[k as int]@);
                let klen = kws[k].len();
                proof {
                    lemma_akw(s@, i as int, 0);
                }
                found = adecl_at_exec(s, k, i + klen, &kws);
            }
        }
        match found {
            Some((d, e)) => {
                let ghost dv = decl_view(d);
                out.push(d);
                assert(decls_view(out@) =~= o0.push(dv));
                let nx = if e > i + 1 { e } else { i + 1 };
                assert(o0.push(dv) + adecls_from(s@, nx as int) =~= o0 + adecls_from(s@, i as int));
                i = nx;
            },
            None => {
                i = i + 1;
            },
        }
    }
    assert(decls_view(out@) + Seq::<SDecl>::empty() =~= decls_view(out@));
    out
}

proof fn lemma_akw(s: Seq<char>, i: int, k: int)
    requires
        0 <= k,
    ensures
        match akw_from(s, i, k) {
            Some(j) => k <= j < 10 && token_at(s, i, audit_keywords()[j]),
            None => true,
        },
    decreases 10 - k,
{
    if k < 10 && !token_at(s, i, audit_keywords()[k]) {
        lemma_akw(s, i, k + 1);
    }
}

/// Every declaration of a Lean source (see [`audit_decls`]).
fn parse_decls(src: &str) -> (r: Vec<Decl>)
    ensures
        decls_view(r@) == audit_decls(src@),
{
    let raw = chars_of(src);
    let san = sanitize_chars(&raw);
    decls_of_sanitized(&san)
}

// ===========================================================================
// Classification
// ===========================================================================

/// Where the head identifier of `ty` starts: the first alphabetic character
/// or `_`, else the end.
pub open spec fn head_start(ty: Seq<char>) -> int {
    match first_where(ty, |c: char| is_alpha(c) || c == '_') {
        Some(i) => i,
        None => ty.len() as int,
    }
}

/// The head identifier of a type: the first identifier, skipping leading
/// punctuation and prefix notation; `None` when there is none.
pub open spec fn head_ident_spec(ty: Seq<char>) -> Option<Seq<char>> {
    let st = head_start(ty);
    let e = ident_end(ty, st);
    if e == st { None } else { Some(ty.subrange(st, e)) }
}

/// Whether a declaration states a proposition: a `def` / `abbrev` whose
/// ascribed type is `Prop`.
pub open spec fn is_prop_def(d: SDecl) -> bool {
    (d.kind == "def"@ || d.kind == "abbrev"@) && normalize_ws_spec(d.conclusion) == "Prop"@
}

/// Whether a binder name looks like a hypothesis (`h` / `H` prefix).
pub open spec fn hypothesis_named(n: Seq<char>) -> bool {
    n.len() > 0 && (n[0] == 'h' || n[0] == 'H')
}

/// Which assumption a binder of type `ty` with head `head` carries, if any:
/// a locally stated `Prop`, a local `structure` / `class`, or (named like a
/// hypothesis, typed by one bare identifier) an opaque assumption.
pub open spec fn classify_spec(ds: Seq<SDecl>, head: Seq<char>, ty: Seq<char>, names: Seq<Seq<char>>) -> Option<HypothesisFlavor> {
    if exists|i: int| 0 <= i < ds.len() && is_prop_def(#[trigger] ds[i]) && ds[i].name == head {
        Some(HypothesisFlavor::PropDef)
    } else if exists|i: int| 0 <= i < ds.len() && is_structure_kind(#[trigger] ds[i].kind) && ds[i].name == head {
        Some(HypothesisFlavor::Bundle)
    } else if ty == head && ty.len() > 0 && exists|j: int| 0 <= j < names.len() && hypothesis_named(#[trigger] names[j]) {
        Some(HypothesisFlavor::Opaque)
    } else {
        None
    }
}

/// The first declaration of `ds[i..]` other than the target, of an
/// inhabiting kind, whose conclusion's head is `head`: `"<kind> <name>"`.
pub open spec fn witness_from(ds: Seq<SDecl>, target: Seq<char>, head: Seq<char>, i: int) -> Option<Seq<char>>
    decreases ds.len() - i,
{
    if i < 0 || i >= ds.len() {
        None
    } else if ds[i].name != target && is_inhabiting_kind(ds[i].kind)
        && head_ident_spec(normalize_ws_spec(ds[i].conclusion)) == Some(head) {
        Some(ds[i].kind + seq![' '] + ds[i].name)
    } else {
        witness_from(ds, target, head, i + 1)
    }
}

/// Whether some inhabiting declaration other than the target mentions
/// `head.mk` in its conclusion or body.
pub open spec fn mk_witness(ds: Seq<SDecl>, target: Seq<char>, head: Seq<char>) -> bool {
    exists|i: int| 0 <= i < ds.len() && is_inhabiting_kind(#[trigger] ds[i].kind) && ds[i].name != target
        && (contains_spec(normalize_ws_spec(ds[i].conclusion), head + ".mk"@) || contains_spec(ds[i].body, head + ".mk"@))
}

/// What discharges `head`: a proof, instance or term of it, else a
/// `head.mk` construction; an `axiom` or `opaque` never does.
pub open spec fn witness_spec(ds: Seq<SDecl>, target: Seq<char>, head: Seq<char>) -> Option<Seq<char>> {
    match witness_from(ds, target, head, 0) {
        Some(w) => Some(w),
        None => if mk_witness(ds, target, head) { Some(head + ".mk construction"@) } else { None },
    }
}

/// [`head_ident_spec`] computed.
fn head_ident(ty: &Vec<char>) -> (r: Option<Vec<char>>)
    ensures
        match r {
            Some(h) => head_ident_spec(ty@) == Some(h@),
            None => head_ident_spec(ty@) is None,
        },
{
    let n = ty.len();
    let mut i: usize = 0;
    while i < n && !(char_is_alphabetic(ty[i]) || ty[i] == '_')
        invariant
            i <= n == ty@.len(),
            forall|j: int| 0 <= j < i ==> !(is_alpha(#[trigger] ty@[j]) || ty@[j] == '_'),
        decreases n - i,
    {
        i = i + 1;
    }
    proof {
        crate::text::lemma_first_where_at(ty@, |c: char| is_alpha(c) || c == '_', i as int);
    }
    assert(head_start(ty@) == i);
    let e = find_class(ty, i, n, CharClass::NonIdent);
    assert(ty@.skip(i as int) == ty@.subrange(i as int, n as int));
    if e == i {
        None
    } else {
        Some(window(ty, i, e))
    }
}

/// Whether `s` spells `t`.
fn is_str(s: &String, t: &str) -> (r: bool)
    ensures
        r == (s@ == t@),
{
    crate::text::str_eq(s.as_str(), t)
}

/// [`is_prop_def`] computed.
fn prop_def(d: &Decl) -> (r: bool)
    ensures
        r == is_prop_def(decl_view(*d)),
{
    if !(is_str(&d.kind, "def") || is_str(&d.kind, "abbrev")) {
        return false;
    }
    let c = crate::statement_signature::norm_str(d.conclusion.as_str());
    let p = chars_of("Prop");
    chars_eq(&c, &p)
}

/// [`is_structure_kind`] computed.
fn structure_kind(k: &String) -> (r: bool)
    ensures
        r == is_structure_kind(k@),
{
    is_str(k, "structure") || is_str(k, "class")
}

/// [`is_theorem_kind`] computed.
fn theorem_kind(k: &String) -> (r: bool)
    ensures
        r == is_theorem_kind(k@),
{
    is_str(k, "theorem") || is_str(k, "lemma") || is_str(k, "example")
}

/// [`is_inhabiting_kind`] computed.
fn inhabiting_kind(k: &String) -> (r: bool)
    ensures
        r == is_inhabiting_kind(k@),
{
    is_str(k, "theorem") || is_str(k, "lemma") || is_str(k, "example") || is_str(k, "instance") || is_str(k, "def")
        || is_str(k, "abbrev")
}

/// [`classify_spec`] computed.
fn classify_flavor(ds: &Vec<Decl>, head: &String, ty: &String, names: &Vec<String>) -> (r: Option<HypothesisFlavor>)
    ensures
        r == classify_spec(decls_view(ds@), head@, ty@, names@.map_values(|x: String| x@)),
{
    let ghost dv = decls_view(ds@);
    let mut i: usize = 0;
    while i < ds.len()
        invariant
            i <= ds@.len(),
            dv == decls_view(ds@),
            forall|j: int| 0 <= j < i ==> !(is_prop_def(#[trigger] dv[j]) && dv[j].name == head@),
        decreases ds@.len() - i,
    {
        assert(dv[i as int] == decl_view(ds@[i as int]));
        if prop_def(&ds[i]) && is_str(&ds[i].name, head.as_str()) {
            return Some(HypothesisFlavor::PropDef);
        }
        i = i + 1;
    }
    let mut i: usize = 0;
    while i < ds.len()
        invariant
            i <= ds@.len(),
            dv == decls_view(ds@),
            forall|j: int| 0 <= j < ds@.len() ==> !(is_prop_def(#[trigger] dv[j]) && dv[j].name == head@),
            forall|j: int| 0 <= j < i ==> !(is_structure_kind(#[trigger] dv[j].kind) && dv[j].name == head@),
        decreases ds@.len() - i,
    {
        assert(dv[i as int] == decl_view(ds@[i as int]));
        if structure_kind(&ds[i].kind) && is_str(&ds[i].name, head.as_str()) {
            return Some(HypothesisFlavor::Bundle);
        }
        i = i + 1;
    }
    let ghost nv = names@.map_values(|x: String| x@);
    if !(is_str(ty, head.as_str()) && !ty.as_str().is_empty()) {
        return None;
    }
    let mut j: usize = 0;
    while j < names.len()
        invariant
            j <= names@.len(),
            nv == names@.map_values(|x: String| x@),
            dv == decls_view(ds@),
            ty@ == head@,
            ty@.len() > 0,
            forall|k: int| 0 <= k < ds@.len() ==> !(is_prop_def(#[trigger] dv[k]) && dv[k].name == head@),
            forall|k: int| 0 <= k < ds@.len() ==> !(is_structure_kind(#[trigger] dv[k].kind) && dv[k].name == head@),
            forall|k: int| 0 <= k < j ==> !hypothesis_named(#[trigger] nv[k]),
        decreases names@.len() - j,
    {
        let v = chars_of(names[j].as_str());
        assert(nv[j as int] == v@);
        if v.len() > 0 && (v[0] == 'h' || v[0] == 'H') {
            assert(hypothesis_named(nv[j as int]));
            return Some(HypothesisFlavor::Opaque);
        }
        j = j + 1;
    }
    None
}

/// [`witness_spec`] computed.
fn witness_for(ds: &Vec<Decl>, target: &String, head: &String) -> (r: Option<String>)
    ensures
        opt_view(r) == witness_spec(decls_view(ds@), target@, head@),
{
    let ghost dv = decls_view(ds@);
    let mut i: usize = 0;
    while i < ds.len()
        invariant
            i <= ds@.len(),
            dv == decls_view(ds@),
            witness_from(dv, target@, head@, 0) == witness_from(dv, target@, head@, i as int),
        decreases ds@.len() - i,
    {
        let d = &ds[i];
        assert(dv[i as int] == decl_view(*d));
        if !is_str(&d.name, target.as_str()) && inhabiting_kind(&d.kind) {
            let c = crate::statement_signature::norm_str(d.conclusion.as_str());
            if let Some(h) = head_ident(&c) {
                let hv = chars_of(head.as_str());
                if chars_eq(&h, &hv) {
                    let mut w = d.kind.clone();
                    w.append(" ");
                    w.append(d.name.as_str());
                    proof {
                        reveal_strlit(" ");
                    }
                    assert(w@ =~= d.kind@ + seq![' '] + d.name@);
                    return Some(w);
                }
            }
        }
        i = i + 1;
    }
    let mut mk = head.clone();
    mk.append(".mk");
    let mkv = chars_of(mk.as_str());
    let mut j: usize = 0;
    while j < ds.len()
        invariant
            j <= ds@.len(),
            dv == decls_view(ds@),
            mkv@ == head@ + ".mk"@,
            witness_from(dv, target@, head@, 0) is None,
            forall|k: int| 0 <= k < j ==> !(is_inhabiting_kind(#[trigger] dv[k].kind) && dv[k].name != target@
                && (contains_spec(normalize_ws_spec(dv[k].conclusion), head@ + ".mk"@) || contains_spec(dv[k].body, head@ + ".mk"@))),
        decreases ds@.len() - j,
    {
        let d = &ds[j];
        assert(dv[j as int] == decl_view(*d));
        if inhabiting_kind(&d.kind) && !is_str(&d.name, target.as_str()) {
            let c = crate::statement_signature::norm_str(d.conclusion.as_str());
            let b = chars_of(d.body.as_str());
            assert(c@.subrange(0, c@.len() as int) == c@);
            assert(b@.subrange(0, b@.len() as int) == b@);
            if contains_at(&c, 0, c.len(), &mkv) || contains_at(&b, 0, b.len(), &mkv) {
                let mut w = head.clone();
                w.append(".mk construction");
                assert(is_inhabiting_kind(dv[j as int].kind) && dv[j as int].name != target@
                    && (contains_spec(normalize_ws_spec(dv[j as int].conclusion), head@ + ".mk"@) || contains_spec(dv[j as int].body, head@ + ".mk"@)));
                return Some(w);
            }
        }
        j = j + 1;
    }
    None
}

/// The view of an optional string.
pub open spec fn opt_view(o: Option<String>) -> Option<Seq<char>> {
    match o {
        Some(s) => Some(s@),
        None => None,
    }
}

// ===========================================================================
// The audit
// ===========================================================================

/// The model of a [`Hypothesis`].
pub ghost struct SHypo {
    pub name: Seq<char>,
    pub ty: Seq<char>,
    pub head: Seq<char>,
    pub flavor: HypothesisFlavor,
    pub status: HypothesisStatus,
    pub witness: Option<Seq<char>>,
}

/// The model of a [`BundleStructure`].
pub ghost struct SBundle {
    pub name: Seq<char>,
    pub kind: Seq<char>,
    pub fields: Seq<(Seq<char>, Seq<char>)>,
    pub instantiated: bool,
}

/// What the audit has gathered so far.
pub ghost struct AState {
    pub hyps: Seq<SHypo>,
    pub bundles: Seq<SBundle>,
    pub findings: Seq<Seq<char>>,
}

/// The finding for one unaccounted hypothesis.
pub open spec fn unaccounted_msg(target: Seq<char>, name: Seq<char>, ty: Seq<char>, head: Seq<char>, f: HypothesisFlavor) -> Seq<char> {
    match f {
        HypothesisFlavor::PropDef => "undischarged hypothesis: theorem `"@ + target + "` takes `("@ + name + " : "@ + ty
            + ")`, where `"@ + head
            + "` is a `Prop` STATED but never PROVED in the submission — the result is conditional on unproved mathematics carried in its own signature (invisible to `#print axioms` and to a `sorry` scan)"@,
        HypothesisFlavor::Bundle => "undischarged hypothesis: theorem `"@ + target + "` takes `("@ + name + " : "@ + ty
            + ")`, where `"@ + head
            + "` is an assumption-bundling structure with no constructed instance — the result is vacuously conditional on a possibly-uninhabited assumption bundle"@,
        HypothesisFlavor::Opaque => "unaccounted hypothesis: theorem `"@ + target + "` takes `("@ + name + " : "@ + ty
            + ")`, an opaque named assumption `"@ + head
            + "` that is neither discharged in the submission nor declared a designated input (fail-closed: allowlist it if it is a genuine hypothesis of the task)"@,
    }
}

/// One field as rendered in a finding: `` `name : ty` ``.
pub open spec fn field_text(f: (Seq<char>, Seq<char>)) -> Seq<char> {
    seq!['`'] + f.0 + " : "@ + f.1 + seq!['`']
}

/// The fields of a bundle, rendered and joined by `, `.
pub open spec fn field_summary(fs: Seq<(Seq<char>, Seq<char>)>) -> Seq<char> {
    if fs.len() == 0 { "<no fields parsed>"@ } else { join(fs.map_values(|f: (Seq<char>, Seq<char>)| field_text(f)), ", "@) }
}

/// The finding for a bundle with no constructed instance.
pub open spec fn bundle_msg(head: Seq<char>, kind: Seq<char>, target: Seq<char>, fs: Seq<(Seq<char>, Seq<char>)>) -> Seq<char> {
    "assumption-bundling structure `"@ + head + "` ("@ + kind + ") is used as a hypothesis of `"@ + target
        + "` but NO instance of it is ever constructed in the submission — it bundles "@ + decimal(fs.len())
        + " unproved propert"@ + (if fs.len() == 1 { "y"@ } else { "ies"@ }) + ": "@ + field_summary(fs)
}

/// Audit one bound name.
pub open spec fn name_step(
    st: AState,
    ds: Seq<SDecl>,
    target: Seq<char>,
    allow: Seq<Seq<char>>,
    name: Seq<char>,
    ty: Seq<char>,
    head: Seq<char>,
    f: HypothesisFlavor,
) -> AState {
    let w = witness_spec(ds, target, head);
    let status = if allow.contains(name) || allow.contains(head) {
        HypothesisStatus::Allowlisted
    } else if w is Some {
        HypothesisStatus::Discharged
    } else {
        HypothesisStatus::Unaccounted
    };
    AState {
        hyps: st.hyps.push(SHypo { name, ty, head, flavor: f, status, witness: w }),
        bundles: st.bundles,
        findings: if status == HypothesisStatus::Unaccounted {
            st.findings.push(unaccounted_msg(target, name, ty, head, f))
        } else {
            st.findings
        },
    }
}

/// Audit the bound names `names[..j]`.
pub open spec fn names_fold(
    st: AState,
    ds: Seq<SDecl>,
    target: Seq<char>,
    allow: Seq<Seq<char>>,
    names: Seq<Seq<char>>,
    ty: Seq<char>,
    head: Seq<char>,
    f: HypothesisFlavor,
    j: int,
) -> AState
    decreases j,
{
    if j <= 0 {
        st
    } else {
        name_step(names_fold(st, ds, target, allow, names, ty, head, f, j - 1), ds, target, allow, names[j - 1], ty, head, f)
    }
}

/// The first `structure` / `class` of `ds[i..]` named `head`.
pub open spec fn first_structure(ds: Seq<SDecl>, head: Seq<char>, i: int) -> Option<int>
    decreases ds.len() - i,
{
    if i < 0 || i >= ds.len() {
        None
    } else if is_structure_kind(ds[i].kind) && ds[i].name == head {
        Some(i)
    } else {
        first_structure(ds, head, i + 1)
    }
}

/// Record the bundle `head` once, with a finding when nothing constructs it.
pub open spec fn bundle_step(st: AState, ds: Seq<SDecl>, target: Seq<char>, head: Seq<char>) -> AState {
    if exists|b: int| 0 <= b < st.bundles.len() && (#[trigger] st.bundles[b]).name == head {
        st
    } else {
        match first_structure(ds, head, 0) {
            None => st,
            Some(i) => {
                let d = ds[i];
                let inst = witness_spec(ds, target, head) is Some;
                AState {
                    hyps: st.hyps,
                    bundles: st.bundles.push(SBundle { name: head, kind: d.kind, fields: d.fields, instantiated: inst }),
                    findings: if inst { st.findings } else { st.findings.push(bundle_msg(head, d.kind, target, d.fields)) },
                }
            },
        }
    }
}

/// Audit one binder group.
pub open spec fn group_step(st: AState, ds: Seq<SDecl>, target: Seq<char>, allow: Seq<Seq<char>>, g: SGroup) -> AState {
    let ty = normalize_ws_spec(g.ty);
    match head_ident_spec(ty) {
        None => st,
        Some(head) => match classify_spec(ds, head, ty, g.names) {
            None => st,
            Some(f) => {
                let names = if g.names.len() == 0 { seq![seq!['_']] } else { g.names };
                let st2 = names_fold(st, ds, target, allow, names, ty, head, f, names.len() as int);
                if f == HypothesisFlavor::Bundle { bundle_step(st2, ds, target, head) } else { st2 }
            },
        },
    }
}

/// Audit the groups `gs[..n]`.
pub open spec fn groups_fold(ds: Seq<SDecl>, target: Seq<char>, allow: Seq<Seq<char>>, gs: Seq<SGroup>, n: int) -> AState
    decreases n,
{
    if n <= 0 {
        AState { hyps: Seq::empty(), bundles: Seq::empty(), findings: Seq::empty() }
    } else {
        group_step(groups_fold(ds, target, allow, gs, n - 1), ds, target, allow, gs[n - 1])
    }
}

/// The first theorem-like declaration of `ds[i..]`.
pub open spec fn first_theorem(ds: Seq<SDecl>, i: int) -> Option<int>
    decreases ds.len() - i,
{
    if i < 0 || i >= ds.len() {
        None
    } else if is_theorem_kind(ds[i].kind) {
        Some(i)
    } else {
        first_theorem(ds, i + 1)
    }
}

/// The first theorem-like declaration of `ds[i..]` named `name`.
pub open spec fn first_target(ds: Seq<SDecl>, name: Seq<char>, i: int) -> Option<int>
    decreases ds.len() - i,
{
    if i < 0 || i >= ds.len() {
        None
    } else if is_theorem_kind(ds[i].kind) && ds[i].name == name {
        Some(i)
    } else {
        first_target(ds, name, i + 1)
    }
}

/// The model of a [`HypothesisReport`].
pub ghost struct SAudit {
    pub clean: bool,
    pub applicable: bool,
    pub target: Option<Seq<char>>,
    pub findings: Seq<Seq<char>>,
    pub hyps: Seq<SHypo>,
    pub bundles: Seq<SBundle>,
}

/// A fail-closed report with one finding.
pub open spec fn audit_fail(msg: Seq<char>) -> SAudit {
    SAudit { clean: false, applicable: true, target: None, findings: seq![msg], hyps: Seq::empty(), bundles: Seq::empty() }
}

/// Whether no hypothesis is unaccounted.
pub open spec fn all_accounted(hs: Seq<SHypo>) -> bool {
    forall|i: int| 0 <= i < hs.len() ==> (#[trigger] hs[i]).status != HypothesisStatus::Unaccounted
}

/// What the Lean audit reports.
pub open spec fn audit_lean_spec(canonical: Seq<char>, submitted: Seq<char>, allow: Seq<Seq<char>>) -> SAudit {
    let cds = audit_decls(canonical);
    match first_theorem(cds, 0) {
        None => audit_fail(
            "canonical statement did not parse into a `theorem`/`lemma` signature (fail-closed: cannot enumerate hypothesis binders)"@,
        ),
        Some(ci) => {
            let cname = cds[ci].name;
            let ds = audit_decls(submitted);
            match first_target(ds, cname, 0) {
                None => audit_fail(
                    "no `"@ + cname
                        + "` declaration found in the submission (fail-closed: cannot audit the hypotheses of a signature we cannot see)"@,
                ),
                Some(ti) => {
                    let t = ds[ti];
                    let gs = groups_from(t.binders, 0);
                    let st = groups_fold(ds, t.name, allow, gs, gs.len() as int);
                    SAudit {
                        clean: all_accounted(st.hyps),
                        applicable: true,
                        target: Some(t.name),
                        findings: st.findings,
                        hyps: st.hyps,
                        bundles: st.bundles,
                    }
                },
            }
        },
    }
}

/// What [`audit_hypotheses`] reports: the Lean audit, or "not applicable"
/// (clean, with one finding) for every other system.
pub open spec fn audit_spec(system: FormalSystem, canonical: Seq<char>, submitted: Seq<char>, allow: Seq<Seq<char>>) -> SAudit {
    match system {
        FormalSystem::Lean => audit_lean_spec(canonical, submitted, allow),
        _ => SAudit {
            clean: true,
            applicable: false,
            target: None,
            findings: seq![
                "hypothesis audit not applicable: no binder-discharge parser for `"@ + system_tag(system)
                    + "` (Lean 4 only) — this layer neither passes nor fails the submission"@
            ],
            hyps: Seq::empty(),
            bundles: Seq::empty(),
        },
    }
}

/// The result of [`audit_hypotheses`].
#[derive(Debug, Clone, PartialEq, Eq)]
pub struct HypothesisReport {
    /// `false` if any hypothesis is unaccounted or nothing could be parsed.
    pub clean: bool,
    /// Whether this system's syntax is audited at all (Lean only).
    pub applicable: bool,
    /// The audited declaration (`None` when unparseable).
    pub target: Option<String>,
    /// Human-readable findings.
    pub findings: Vec<String>,
    /// Every audited binder, in signature order.
    pub hypotheses: Vec<Hypothesis>,
    /// Every assumption-bundling structure used as a hypothesis type.
    pub bundles: Vec<BundleStructure>,
}

/// The model of a hypothesis.
pub open spec fn hypo_view(h: Hypothesis) -> SHypo {
    SHypo { name: h.name@, ty: h.ty@, head: h.head@, flavor: h.flavor, status: h.status, witness: opt_view(h.witness) }
}

/// The model of a bundle.
pub open spec fn bundle_view(b: BundleStructure) -> SBundle {
    SBundle { name: b.name@, kind: b.kind@, fields: fields_view(b.fields@), instantiated: b.instantiated }
}

/// The model of a report.
pub open spec fn report_view(r: HypothesisReport) -> SAudit {
    SAudit {
        clean: r.clean,
        applicable: r.applicable,
        target: opt_view(r.target),
        findings: r.findings@.map_values(|f: String| f@),
        hyps: r.hypotheses@.map_values(|h: Hypothesis| hypo_view(h)),
        bundles: r.bundles@.map_values(|b: BundleStructure| bundle_view(b)),
    }
}

/// How many of `hs[..n]` are unaccounted.
pub open spec fn unaccounted_upto(hs: Seq<SHypo>, n: int) -> nat
    decreases n,
{
    if n <= 0 {
        0
    } else {
        unaccounted_upto(hs, n - 1) + if hs[n - 1].status == HypothesisStatus::Unaccounted { 1nat } else { 0nat }
    }
}

impl HypothesisReport {
    /// The number of unaccounted hypotheses.
    pub fn unaccounted_count(&self) -> (r: usize)
        ensures
            r == unaccounted_upto(report_view(*self).hyps, self.hypotheses@.len() as int),
    {
        let ghost hv = report_view(*self).hyps;
        let mut c: usize = 0;
        let mut i: usize = 0;
        while i < self.hypotheses.len()
            invariant
                i <= self.hypotheses@.len(),
                hv == self.hypotheses@.map_values(|h: Hypothesis| hypo_view(h)),
                c == unaccounted_upto(hv, i as int),
                c <= i,
            decreases self.hypotheses@.len() - i,
        {
            assert(hv[i as int] == hypo_view(self.hypotheses@[i as int]));
            if self.hypotheses[i].status == HypothesisStatus::Unaccounted {
                c = c + 1;
            }
            i = i + 1;
        }
        c
    }

    /// The report as a scan result: clean iff clean, same findings.
    pub fn into_scan_report(self) -> (r: ScanReport)
        ensures
            r.clean == self.clean,
            r.findings@ == self.findings@,
    {
        ScanReport { clean: self.clean, findings: self.findings }
    }
}

/// The state gathered in three vectors.
pub open spec fn astate(hs: Seq<Hypothesis>, bs: Seq<BundleStructure>, fs: Seq<String>) -> AState {
    AState {
        hyps: hs.map_values(|h: Hypothesis| hypo_view(h)),
        bundles: bs.map_values(|b: BundleStructure| bundle_view(b)),
        findings: fs.map_values(|f: String| f@),
    }
}

/// Whether the allowlist holds `x`.
fn allowed(allow: &[String], x: &String) -> (r: bool)
    ensures
        r == allow@.map_values(|a: String| a@).contains(x@),
{
    let ghost av = allow@.map_values(|a: String| a@);
    let mut i: usize = 0;
    while i < allow.len()
        invariant
            i <= allow@.len(),
            av == allow@.map_values(|a: String| a@),
            forall|j: int| 0 <= j < i ==> av[j] != x@,
        decreases allow@.len() - i,
    {
        if crate::text::str_eq(allow[i].as_str(), x.as_str()) {
            assert(av[i as int] == x@);
            return true;
        }
        i = i + 1;
    }
    assert forall|j: int| #![trigger av[j]] 0 <= j < av.len() implies av[j] != x@ by {}
    false
}

/// The finding for one unaccounted hypothesis.
fn unaccounted_line(target: &String, name: &String, ty: &String, head: &String, f: HypothesisFlavor) -> (r: String)
    ensures
        r@ == unaccounted_msg(target@, name@, ty@, head@, f),
{
    let mut m = match f {
        HypothesisFlavor::Opaque => owned("unaccounted hypothesis: theorem `"),
        _ => owned("undischarged hypothesis: theorem `"),
    };
    m.append(target.as_str());
    m.append("` takes `(");
    m.append(name.as_str());
    m.append(" : ");
    m.append(ty.as_str());
    match f {
        HypothesisFlavor::PropDef => {
            m.append(")`, where `");
            m.append(head.as_str());
            m.append("` is a `Prop` STATED but never PROVED in the submission — the result is conditional on unproved mathematics carried in its own signature (invisible to `#print axioms` and to a `sorry` scan)");
        },
        HypothesisFlavor::Bundle => {
            m.append(")`, where `");
            m.append(head.as_str());
            m.append("` is an assumption-bundling structure with no constructed instance — the result is vacuously conditional on a possibly-uninhabited assumption bundle");
        },
        HypothesisFlavor::Opaque => {
            m.append(")`, an opaque named assumption `");
            m.append(head.as_str());
            m.append("` that is neither discharged in the submission nor declared a designated input (fail-closed: allowlist it if it is a genuine hypothesis of the task)");
        },
    }
    m
}

/// Audit one bound name (see [`name_step`]).
fn audit_name(
    hyps: &mut Vec<Hypothesis>,
    findings: &mut Vec<String>,
    bundles: &Vec<BundleStructure>,
    ds: &Vec<Decl>,
    target: &String,
    allow: &[String],
    name: &String,
    ty: &String,
    head: &String,
    f: HypothesisFlavor,
)
    ensures
        astate(final(hyps)@, bundles@, final(findings)@) == name_step(
            astate(old(hyps)@, bundles@, old(findings)@),
            decls_view(ds@),
            target@,
            allow@.map_values(|a: String| a@),
            name@,
            ty@,
            head@,
            f,
        ),
{
    let w = witness_for(ds, target, head);
    let status = if allowed(allow, name) || allowed(allow, head) {
        HypothesisStatus::Allowlisted
    } else if w.is_some() {
        HypothesisStatus::Discharged
    } else {
        HypothesisStatus::Unaccounted
    };
    let ghost f0 = findings@.map_values(|x: String| x@);
    if status == HypothesisStatus::Unaccounted {
        let line = unaccounted_line(target, name, ty, head, f);
        findings.push(line);
        assert(findings@.map_values(|x: String| x@) =~= f0.push(unaccounted_msg(target@, name@, ty@, head@, f)));
    }
    let ghost h0 = hyps@.map_values(|h: Hypothesis| hypo_view(h));
    let h = Hypothesis { name: name.clone(), ty: ty.clone(), head: head.clone(), flavor: f, status, witness: w };
    let ghost hv = hypo_view(h);
    hyps.push(h);
    assert(hyps@.map_values(|x: Hypothesis| hypo_view(x)) =~= h0.push(hv));
}

/// The rendered fields of a bundle (see [`field_summary`]).
fn field_summary_exec(fs: &Vec<StructField>) -> (r: String)
    ensures
        r@ == field_summary(fields_view(fs@)),
{
    if fs.len() == 0 {
        return owned("<no fields parsed>");
    }
    let ghost fv = fields_view(fs@);
    let ghost tv = fv.map_values(|f: (Seq<char>, Seq<char>)| field_text(f));
    let mut out = String::new();
    let mut i: usize = 0;
    while i < fs.len()
        invariant
            i <= fs@.len(),
            fv == fields_view(fs@),
            tv == fv.map_values(|f: (Seq<char>, Seq<char>)| field_text(f)),
            out@ == join(tv.take(i as int), ", "@),
        decreases fs@.len() - i,
    {
        proof {
            lemma_join_push(tv.take(i as int), ", "@, tv[i as int]);
            assert(tv.take(i + 1) == tv.take(i as int).push(tv[i as int]));
        }
        let ghost o0 = out@;
        if i > 0 {
            out.append(", ");
        }
        let ghost o1 = out@;
        out.append("`");
        out.append(fs[i].name.as_str());
        out.append(" : ");
        out.append(fs[i].ty.as_str());
        out.append("`");
        proof {
            reveal_strlit("`");
            assert(fv[i as int] == (fs@[i as int].name@, fs@[i as int].ty@));
            assert(out@ =~= o1 + field_text(fv[i as int]));
        }
        i = i + 1;
    }
    assert(tv.take(fs@.len() as int) == tv);
    out
}

/// The bundle finding.
fn bundle_line(head: &String, kind: &String, target: &String, fs: &Vec<StructField>) -> (r: String)
    ensures
        r@ == bundle_msg(head@, kind@, target@, fields_view(fs@)),
{
    let mut m = owned("assumption-bundling structure `");
    m.append(head.as_str());
    m.append("` (");
    m.append(kind.as_str());
    m.append(") is used as a hypothesis of `");
    m.append(target.as_str());
    m.append("` but NO instance of it is ever constructed in the submission — it bundles ");
    push_decimal(&mut m, fs.len());
    m.append(" unproved propert");
    if fs.len() == 1 {
        m.append("y");
    } else {
        m.append("ies");
    }
    m.append(": ");
    let summary = field_summary_exec(fs);
    m.append(summary.as_str());
    assert(fields_view(fs@).len() == fs@.len());
    m
}

/// A copy of a field list.
fn clone_fields(fs: &Vec<StructField>) -> (r: Vec<StructField>)
    ensures
        fields_view(r@) == fields_view(fs@),
{
    let mut out: Vec<StructField> = Vec::new();
    let mut i: usize = 0;
    while i < fs.len()
        invariant
            i <= fs@.len(),
            fields_view(out@) == fields_view(fs@).take(i as int),
        decreases fs@.len() - i,
    {
        let ghost o0 = fields_view(out@);
        let nf = StructField { name: fs[i].name.clone(), ty: fs[i].ty.clone() };
        assert((nf.name@, nf.ty@) == fields_view(fs@)[i as int]);
        out.push(nf);
        assert(fields_view(out@) =~= o0.push(fields_view(fs@)[i as int]));
        assert(fields_view(fs@).take(i + 1) =~= fields_view(fs@).take(i as int).push(fields_view(fs@)[i as int]));
        i = i + 1;
    }
    assert(fields_view(fs@).take(fs@.len() as int) == fields_view(fs@));
    out
}

/// Record a bundle once (see [`bundle_step`]).
fn audit_bundle(
    hyps: &Vec<Hypothesis>,
    bundles: &mut Vec<BundleStructure>,
    findings: &mut Vec<String>,
    ds: &Vec<Decl>,
    target: &String,
    head: &String,
)
    ensures
        astate(hyps@, final(bundles)@, final(findings)@) == bundle_step(
            astate(hyps@, old(bundles)@, old(findings)@),
            decls_view(ds@),
            target@,
            head@,
        ),
{
    let ghost st = astate(hyps@, bundles@, findings@);
    let mut b: usize = 0;
    while b < bundles.len()
        invariant
            b <= bundles@.len(),
            st == astate(hyps@, bundles@, findings@),
            bundles@ == old(bundles)@,
            findings@ == old(findings)@,
            forall|k: int| 0 <= k < b ==> (#[trigger] st.bundles[k]).name != head@,
        decreases bundles@.len() - b,
    {
        assert(st.bundles[b as int] == bundle_view(bundles@[b as int]));
        if is_str(&bundles[b].name, head.as_str()) {
            assert(st.bundles[b as int].name == head@);
            return;
        }
        b = b + 1;
    }
    let ghost dv = decls_view(ds@);
    let mut i: usize = 0;
    while i < ds.len()
        invariant
            i <= ds@.len(),
            dv == decls_view(ds@),
            st == astate(hyps@, bundles@, findings@),
            bundles@ == old(bundles)@,
            findings@ == old(findings)@,
            b == bundles@.len(),
            forall|k: int| 0 <= k < bundles@.len() ==> (#[trigger] st.bundles[k]).name != head@,
            first_structure(dv, head@, 0) == first_structure(dv, head@, i as int),
        decreases ds@.len() - i,
    {
        assert(dv[i as int] == decl_view(ds@[i as int]));
        if structure_kind(&ds[i].kind) && is_str(&ds[i].name, head.as_str()) {
            let d = &ds[i];
            let inst = witness_for(ds, target, head).is_some();
            let ghost f0 = findings@.map_values(|x: String| x@);
            if !inst {
                let line = bundle_line(head, &d.kind, target, &d.fields);
                findings.push(line);
                assert(findings@.map_values(|x: String| x@) =~= f0.push(bundle_msg(head@, d.kind@, target@, fields_view(d.fields@))));
            }
            let ghost b0 = bundles@.map_values(|x: BundleStructure| bundle_view(x));
            let nb = BundleStructure { name: head.clone(), kind: d.kind.clone(), fields: clone_fields(&d.fields), instantiated: inst };
            let ghost bv = bundle_view(nb);
            bundles.push(nb);
            assert(bundles@.map_values(|x: BundleStructure| bundle_view(x)) =~= b0.push(bv));
            proof {
                assert(first_structure(dv, head@, 0) == Some(i as int));
                assert(!(exists|k: int| 0 <= k < st.bundles.len() && (#[trigger] st.bundles[k]).name == head@));
                let exp = bundle_step(st, dv, target@, head@);
                assert(bv == SBundle { name: head@, kind: dv[i as int].kind, fields: dv[i as int].fields, instantiated: inst });
                assert(exp.bundles =~= st.bundles.push(bv));
                assert(exp.hyps == st.hyps);
                assert(astate(hyps@, bundles@, findings@).findings =~= exp.findings);
            }
            return;
        }
        i = i + 1;
    }
}

/// A copy of a name list.
fn clone_names(v: &Vec<String>) -> (r: Vec<String>)
    ensures
        r@.map_values(|x: String| x@) == v@.map_values(|x: String| x@),
{
    let mut out: Vec<String> = Vec::new();
    let mut i: usize = 0;
    while i < v.len()
        invariant
            i <= v@.len(),
            out@.map_values(|x: String| x@) == v@.map_values(|x: String| x@).take(i as int),
        decreases v@.len() - i,
    {
        let ghost o0 = out@.map_values(|x: String| x@);
        let c = v[i].clone();
        assert(c@ == v@.map_values(|x: String| x@)[i as int]);
        out.push(c);
        assert(out@.map_values(|x: String| x@) =~= o0.push(v@.map_values(|x: String| x@)[i as int]));
        assert(v@.map_values(|x: String| x@).take(i + 1) =~= v@.map_values(|x: String| x@).take(i as int).push(v@.map_values(|x: String| x@)[i as int]));
        i = i + 1;
    }
    assert(v@.map_values(|x: String| x@).take(v@.len() as int) == v@.map_values(|x: String| x@));
    out
}

/// Audit one binder group (see [`group_step`]).
#[verifier::spinoff_prover]
fn audit_group(
    hyps: &mut Vec<Hypothesis>,
    bundles: &mut Vec<BundleStructure>,
    findings: &mut Vec<String>,
    ds: &Vec<Decl>,
    target: &String,
    allow: &[String],
    g: &BinderGroup,
)
    ensures
        astate(final(hyps)@, final(bundles)@, final(findings)@) == group_step(
            astate(old(hyps)@, old(bundles)@, old(findings)@),
            decls_view(ds@),
            target@,
            allow@.map_values(|a: String| a@),
            group_view(*g),
        ),
{
    let tyv = crate::statement_signature::norm_str(g.ty.as_str());
    let ty = string_of(&tyv);
    let hd = head_ident(&tyv);
    if hd.is_none() {
        return;
    }
    let head = string_of(&hd.unwrap());
    let fl = classify_flavor(ds, &head, &ty, &g.names);
    if fl.is_none() {
        return;
    }
    let f = fl.unwrap();
    let names: Vec<String> = if g.names.len() == 0 {
        let mut v: Vec<String> = Vec::new();
        v.push(owned("_"));
        proof {
            reveal_strlit("_");
            assert("_"@ =~= seq!['_']);
            assert(v@.map_values(|x: String| x@)[0] == "_"@);
        }
        assert(v@.map_values(|x: String| x@) =~= seq![seq!['_']]);
        v
    } else {
        clone_names(&g.names)
    };
    let ghost nv = names@.map_values(|x: String| x@);
    let ghost dv = decls_view(ds@);
    let ghost av = allow@.map_values(|a: String| a@);
    let ghost st0 = astate(hyps@, bundles@, findings@);
    let mut j: usize = 0;
    while j < names.len()
        invariant
            j <= names@.len(),
            nv == names@.map_values(|x: String| x@),
            dv == decls_view(ds@),
            av == allow@.map_values(|a: String| a@),
            astate(hyps@, bundles@, findings@) == names_fold(st0, dv, target@, av, nv, ty@, head@, f, j as int),
        decreases names@.len() - j,
    {
        assert(nv[j as int] == names@[j as int]@);
        audit_name(hyps, findings, bundles, ds, target, allow, &names[j], &ty, &head, f);
        j = j + 1;
    }
    assert(nv.len() == names@.len());
    if f == HypothesisFlavor::Bundle {
        audit_bundle(hyps, bundles, findings, ds, target, &head);
    }
}

/// The fail-closed report.
fn fail_report(msg: String) -> (r: HypothesisReport)
    ensures
        report_view(r) == audit_fail(msg@),
{
    let mut f: Vec<String> = Vec::new();
    f.push(msg);
    let r = HypothesisReport { clean: false, applicable: true, target: None, findings: f, hypotheses: Vec::new(), bundles: Vec::new() };
    assert(report_view(r).findings =~= seq![msg@]);
    assert(report_view(r).hyps =~= Seq::<SHypo>::empty());
    assert(report_view(r).bundles =~= Seq::<SBundle>::empty());
    r
}

/// The Lean audit (see [`audit_lean_spec`]).
#[verifier::spinoff_prover]
fn audit_lean(canonical_statement: &str, submitted_code: &str, allow: &[String]) -> (r: HypothesisReport)
    ensures
        report_view(r) == audit_lean_spec(canonical_statement@, submitted_code@, allow@.map_values(|a: String| a@)),
{
    let cds = parse_decls(canonical_statement);
    let ghost cdv = decls_view(cds@);
    let mut ci: usize = 0;
    while ci < cds.len() && !theorem_kind(&cds[ci].kind)
        invariant
            ci <= cds@.len(),
            cdv == decls_view(cds@),
            first_theorem(cdv, 0) == first_theorem(cdv, ci as int),
        decreases cds@.len() - ci,
    {
        assert(cdv[ci as int] == decl_view(cds@[ci as int]));
        ci = ci + 1;
    }
    if ci == cds.len() {
        return fail_report(owned("canonical statement did not parse into a `theorem`/`lemma` signature (fail-closed: cannot enumerate hypothesis binders)"));
    }
    assert(cdv[ci as int] == decl_view(cds@[ci as int]));
    let cname = &cds[ci].name;
    let ds = parse_decls(submitted_code);
    let ghost dv = decls_view(ds@);
    let mut ti: usize = 0;
    while ti < ds.len() && !(theorem_kind(&ds[ti].kind) && is_str(&ds[ti].name, cname.as_str()))
        invariant
            ti <= ds@.len(),
            dv == decls_view(ds@),
            first_target(dv, cname@, 0) == first_target(dv, cname@, ti as int),
        decreases ds@.len() - ti,
    {
        assert(dv[ti as int] == decl_view(ds@[ti as int]));
        ti = ti + 1;
    }
    if ti == ds.len() {
        let mut m = owned("no `");
        m.append(cname.as_str());
        m.append("` declaration found in the submission (fail-closed: cannot audit the hypotheses of a signature we cannot see)");
        return fail_report(m);
    }
    assert(dv[ti as int] == decl_view(ds@[ti as int]));
    let t = &ds[ti];
    let bv = chars_of(t.binders.as_str());
    let gs = binder_groups(&bv);
    let ghost gv = groups_view(gs@);
    let ghost av = allow@.map_values(|a: String| a@);
    let mut hyps: Vec<Hypothesis> = Vec::new();
    let mut bundles: Vec<BundleStructure> = Vec::new();
    let mut findings: Vec<String> = Vec::new();
    assert(hyps@.map_values(|h: Hypothesis| hypo_view(h)) =~= Seq::<SHypo>::empty());
    assert(bundles@.map_values(|x: BundleStructure| bundle_view(x)) =~= Seq::<SBundle>::empty());
    assert(findings@.map_values(|x: String| x@) =~= Seq::<Seq<char>>::empty());
    let mut k: usize = 0;
    while k < gs.len()
        invariant
            k <= gs@.len(),
            gv == groups_view(gs@),
            dv == decls_view(ds@),
            av == allow@.map_values(|a: String| a@),
            astate(hyps@, bundles@, findings@) == groups_fold(dv, t.name@, av, gv, k as int),
        decreases gs@.len() - k,
    {
        assert(gv[k as int] == group_view(gs@[k as int]));
        audit_group(&mut hyps, &mut bundles, &mut findings, &ds, &t.name, allow, &gs[k]);
        k = k + 1;
    }
    assert(gv.len() == gs@.len());
    let ghost hv = hyps@.map_values(|h: Hypothesis| hypo_view(h));
    let mut clean = true;
    let mut i: usize = 0;
    while i < hyps.len()
        invariant
            i <= hyps@.len(),
            hv == hyps@.map_values(|h: Hypothesis| hypo_view(h)),
            clean == (forall|j: int| 0 <= j < i ==> (#[trigger] hv[j]).status != HypothesisStatus::Unaccounted),
        decreases hyps@.len() - i,
    {
        assert(hv[i as int] == hypo_view(hyps@[i as int]));
        if hyps[i].status == HypothesisStatus::Unaccounted {
            clean = false;
        }
        i = i + 1;
    }
    HypothesisReport {
        clean,
        applicable: true,
        target: Some(t.name.clone()),
        findings,
        hypotheses: hyps,
        bundles,
    }
}

/// Audit the delivered theorem's hypothesis binders for undischarged
/// assumptions. `canonical_statement` names the declaration under
/// certification; `allowlist` names binders (by name or by type head) the
/// caller designated as inputs of the task. Lean only: for any other system
/// the report is clean, not applicable, with one finding saying so.
pub fn audit_hypotheses(system: FormalSystem, canonical_statement: &str, submitted_code: &str, allowlist: &[String]) -> (r: HypothesisReport)
    ensures
        report_view(r) == audit_spec(system, canonical_statement@, submitted_code@, allowlist@.map_values(|a: String| a@)),
{
    match system {
        FormalSystem::Lean => audit_lean(canonical_statement, submitted_code, allowlist),
        _ => {
            let mut m = owned("hypothesis audit not applicable: no binder-discharge parser for `");
            m.append(system.as_str());
            m.append("` (Lean 4 only) — this layer neither passes nor fails the submission");
            let mut f: Vec<String> = Vec::new();
            f.push(m);
            let r = HypothesisReport { clean: true, applicable: false, target: None, findings: f, hypotheses: Vec::new(), bundles: Vec::new() };
            assert(report_view(r).findings =~= audit_spec(system, canonical_statement@, submitted_code@, allowlist@.map_values(|a: String| a@)).findings);
            assert(report_view(r).hyps =~= Seq::<SHypo>::empty());
            assert(report_view(r).bundles =~= Seq::<SBundle>::empty());
            r
        },
    }
}

// ===========================================================================
// Laws
// ===========================================================================

/// Fail-closed: a Lean audit is clean only when the delivered declaration
/// was found and no hypothesis of it is unaccounted; every other system is
/// clean and not applicable.
pub proof fn lemma_audit_fail_closed(system: FormalSystem, canonical: Seq<char>, submitted: Seq<char>, allow: Seq<Seq<char>>)
    ensures
        system == FormalSystem::Lean ==> (audit_spec(system, canonical, submitted, allow).clean ==> (
            audit_spec(system, canonical, submitted, allow).target is Some
            && all_accounted(audit_spec(system, canonical, submitted, allow).hyps))),
        system == FormalSystem::Lean ==> audit_spec(system, canonical, submitted, allow).applicable,
        system != FormalSystem::Lean ==> audit_spec(system, canonical, submitted, allow).clean
            && !audit_spec(system, canonical, submitted, allow).applicable,
{
}

/// Every hypothesis accounted for in `a` is accounted for in `b`, position
/// by position.
pub open spec fn at_least_as_accounted(a: Seq<SHypo>, b: Seq<SHypo>) -> bool {
    a.len() == b.len() && forall|i: int| 0 <= i < a.len() && (#[trigger] a[i]).status != HypothesisStatus::Unaccounted
        ==> b[i].status != HypothesisStatus::Unaccounted
}

/// Whether every entry of `a` is in `b`.
pub open spec fn allow_within(a: Seq<Seq<char>>, b: Seq<Seq<char>>) -> bool {
    forall|x: Seq<char>| a.contains(x) ==> b.contains(x)
}

proof fn lemma_names_fold_mono(
    st1: AState,
    st2: AState,
    ds: Seq<SDecl>,
    target: Seq<char>,
    a1: Seq<Seq<char>>,
    a2: Seq<Seq<char>>,
    names: Seq<Seq<char>>,
    ty: Seq<char>,
    head: Seq<char>,
    f: HypothesisFlavor,
    j: int,
)
    requires
        allow_within(a1, a2),
        at_least_as_accounted(st1.hyps, st2.hyps),
        st1.bundles == st2.bundles,
    ensures
        at_least_as_accounted(names_fold(st1, ds, target, a1, names, ty, head, f, j).hyps, names_fold(st2, ds, target, a2, names, ty, head, f, j).hyps),
        names_fold(st1, ds, target, a1, names, ty, head, f, j).bundles == names_fold(st2, ds, target, a2, names, ty, head, f, j).bundles,
    decreases j,
{
    if j > 0 {
        lemma_names_fold_mono(st1, st2, ds, target, a1, a2, names, ty, head, f, j - 1);
        let n = names[j - 1];
        if a1.contains(n) {
            assert(a2.contains(n));
        }
        if a1.contains(head) {
            assert(a2.contains(head));
        }
        let h1 = names_fold(st1, ds, target, a1, names, ty, head, f, j - 1).hyps;
        let h2 = names_fold(st2, ds, target, a2, names, ty, head, f, j - 1).hyps;
        let r1 = names_fold(st1, ds, target, a1, names, ty, head, f, j).hyps;
        let r2 = names_fold(st2, ds, target, a2, names, ty, head, f, j).hyps;
        assert forall|i: int| 0 <= i < r1.len() && (#[trigger] r1[i]).status != HypothesisStatus::Unaccounted
            implies r2[i].status != HypothesisStatus::Unaccounted by {
            if i < h1.len() {
                assert(r1[i] == h1[i]);
                assert(r2[i] == h2[i]);
            }
        }
    }
}

proof fn lemma_groups_fold_mono(ds: Seq<SDecl>, target: Seq<char>, a1: Seq<Seq<char>>, a2: Seq<Seq<char>>, gs: Seq<SGroup>, n: int)
    requires
        allow_within(a1, a2),
    ensures
        at_least_as_accounted(groups_fold(ds, target, a1, gs, n).hyps, groups_fold(ds, target, a2, gs, n).hyps),
        groups_fold(ds, target, a1, gs, n).bundles == groups_fold(ds, target, a2, gs, n).bundles,
    decreases n,
{
    if n > 0 {
        lemma_groups_fold_mono(ds, target, a1, a2, gs, n - 1);
        let st1 = groups_fold(ds, target, a1, gs, n - 1);
        let st2 = groups_fold(ds, target, a2, gs, n - 1);
        let g = gs[n - 1];
        let ty = normalize_ws_spec(g.ty);
        match head_ident_spec(ty) {
            None => {},
            Some(head) => match classify_spec(ds, head, ty, g.names) {
                None => {},
                Some(f) => {
                    let names = if g.names.len() == 0 { seq![seq!['_']] } else { g.names };
                    lemma_names_fold_mono(st1, st2, ds, target, a1, a2, names, ty, head, f, names.len() as int);
                },
            },
        }
    } else {
        assert(at_least_as_accounted(Seq::<SHypo>::empty(), Seq::<SHypo>::empty()));
    }
}

/// Designating more inputs never makes a clean audit unclean: every
/// hypothesis accounted for under a smaller allowlist stays accounted for
/// under a larger one.
pub proof fn lemma_allowlist_monotone(system: FormalSystem, canonical: Seq<char>, submitted: Seq<char>, a1: Seq<Seq<char>>, a2: Seq<Seq<char>>)
    requires
        allow_within(a1, a2),
    ensures
        audit_spec(system, canonical, submitted, a1).clean ==> audit_spec(system, canonical, submitted, a2).clean,
{
    if system == FormalSystem::Lean {
        let cds = audit_decls(canonical);
        match first_theorem(cds, 0) {
            None => {},
            Some(ci) => {
                let ds = audit_decls(submitted);
                match first_target(ds, cds[ci].name, 0) {
                    None => {},
                    Some(ti) => {
                        let t = ds[ti];
                        let gs = groups_from(t.binders, 0);
                        lemma_groups_fold_mono(ds, t.name, a1, a2, gs, gs.len() as int);
                        let h1 = groups_fold(ds, t.name, a1, gs, gs.len() as int).hyps;
                        let h2 = groups_fold(ds, t.name, a2, gs, gs.len() as int).hyps;
                        if all_accounted(h1) {
                            assert forall|i: int| 0 <= i < h2.len() implies (#[trigger] h2[i]).status != HypothesisStatus::Unaccounted by {
                                assert(h1[i].status != HypothesisStatus::Unaccounted);
                            }
                        }
                    },
                }
            },
        }
    }
}


/// The classification of a binder does not depend on the case of a leading
/// `h`/`H` of a binder name: renaming `h…` to `H…` (or back) in any one
/// name of the group gives the same flavor.
pub proof fn lemma_classify_ignores_h_case(
    ds: Seq<SDecl>,
    head: Seq<char>,
    ty: Seq<char>,
    names: Seq<Seq<char>>,
    j: int,
    rest: Seq<char>,
)
    requires
        0 <= j < names.len(),
    ensures
        classify_spec(ds, head, ty, names.update(j, seq!['h'] + rest)) == classify_spec(
            ds,
            head,
            ty,
            names.update(j, seq!['H'] + rest),
        ),
{
    let a = names.update(j, seq!['h'] + rest);
    let b = names.update(j, seq!['H'] + rest);
    assert(hypothesis_named(a[j]) && hypothesis_named(b[j]));
    assert forall|k: int| 0 <= k < names.len() implies hypothesis_named(#[trigger] a[k]) == hypothesis_named(b[k]) by {
        if k != j {
            assert(a[k] == b[k]);
        }
    }
    if exists|k: int| 0 <= k < a.len() && hypothesis_named(#[trigger] a[k]) {
        assert(hypothesis_named(b[j]));
    }
    if exists|k: int| 0 <= k < b.len() && hypothesis_named(#[trigger] b[k]) {
        assert(hypothesis_named(a[j]));
    }
}

/// A binder typed by one bare identifier that no local `Prop` definition,
/// `structure` or `class` of the source names is an opaque assumption as
/// soon as one of its names starts with `h` or `H`.
pub proof fn lemma_h_named_bare_binder_is_opaque(
    ds: Seq<SDecl>,
    ty: Seq<char>,
    names: Seq<Seq<char>>,
    j: int,
)
    requires
        0 <= j < names.len(),
        ty.len() > 0,
        names[j].len() > 0,
        names[j][0] == 'h' || names[j][0] == 'H',
        forall|i: int| 0 <= i < ds.len() ==> (#[trigger] ds[i]).name != ty,
    ensures
        classify_spec(ds, ty, ty, names) == Some(HypothesisFlavor::Opaque),
{
    assert(hypothesis_named(names[j]));
}
} // verus!
