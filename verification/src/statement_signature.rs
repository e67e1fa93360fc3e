//! Statement-signature preservation: does a submitted proof declare the very
//! theorem it was asked to prove?
//!
//! Lean-family sources are parsed into `kind name binders : conclusion`
//! signatures over their sanitized text; Isabelle, Agda and Metamath get
//! narrow parsers of their own. A match is confirmed up to whitespace and a
//! positional rename of the bound variables, and anything that cannot be
//! confirmed fails closed.
use vstd::prelude::*;
use crate::formal::{strip_all_spec, strip_comments, FormalSystem, ScanReport};
use crate::statement_preservation::{
    closer, decl_keywords, is_word, keyword_at, word_at, word_at_exec, keyword_at_exec, lemma_first_keyword, opener,
    parse_decl_spec, sanitize_chars, sanitize_spec, sig_end_from, signature_end, PreservationVerdict,
    TheoremSig,
};
use crate::text::{
    chars_eq, decimal, digit_char, is_word_char, window_eq, words, join, lemma_join_push, push_char,
    chars_of, class_pred, first_where, ltrim, normalize_ws, normalize_ws_spec, owned, skip_class,
    find_class, string_of, string_of_range, white_pred, word_list, words_view, CharClass,
};

verus! {

/// The model of a [`TheoremSig`].
pub ghost struct SSig {
    pub kind: Seq<char>,
    pub name: Seq<char>,
    pub binders: Seq<char>,
    pub conclusion: Seq<char>,
}

impl View for TheoremSig {
    type V = SSig;

    open spec fn view(&self) -> SSig {
        SSig { kind: self.kind@, name: self.name@, binders: self.binders@, conclusion: self.conclusion@ }
    }
}

/// The models of a sequence of signatures.
pub open spec fn sigs_view(v: Seq<TheoremSig>) -> Seq<SSig> {
    v.map_values(|t: TheoremSig| t@)
}

/// The model of an optional signature.
pub open spec fn opt_sig_view(o: Option<TheoremSig>) -> Option<SSig> {
    match o {
        Some(t) => Some(t@),
        None => None,
    }
}

// ===========================================================================
// Lean-family signatures
// ===========================================================================

/// The first top-level statement colon of `sig` scanned from `i` at bracket
/// depth `depth`: a `:` at depth 0 not followed by `=`.
pub open spec fn statement_colon_from(sig: Seq<char>, i: int, depth: nat) -> Option<int>
    decreases sig.len() - i,
{
    if i < 0 || i >= sig.len() {
        None
    } else if opener(sig[i]) {
        statement_colon_from(sig, i + 1, depth + 1)
    } else if closer(sig[i]) {
        statement_colon_from(sig, i + 1, if depth > 0 { (depth - 1) as nat } else { 0 })
    } else if sig[i] == ':' && depth == 0 && !(i + 1 < sig.len() && sig[i + 1] == '=') {
        Some(i)
    } else {
        statement_colon_from(sig, i + 1, depth)
    }
}

/// The binders and conclusion of a signature region, each
/// whitespace-normalized; without a statement colon the whole region is the
/// binders.
pub open spec fn split_sig(sig: Seq<char>) -> (Seq<char>, Seq<char>) {
    match statement_colon_from(sig, 0, 0) {
        Some(c) => (normalize_ws_spec(sig.take(c)), normalize_ws_spec(sig.skip(c + 1))),
        None => (normalize_ws_spec(sig), Seq::empty()),
    }
}

/// The end of the declared name after keyword end `after_kw`.
pub open spec fn name_end_spec(s: Seq<char>, after_kw: int) -> int {
    let j = s.len() - ltrim(s.skip(after_kw), white_pred()).len();
    let rest = s.skip(j);
    j + match first_where(rest, class_pred(CharClass::NonIdent)) {
        Some(e) => e,
        None => rest.len() as int,
    }
}

/// The signature of the declaration whose keyword (number `k`) ends at
/// `after_kw`, and where its signature ends.
pub open spec fn decl_sig_spec(s: Seq<char>, k: int, after_kw: int) -> Option<(SSig, int)> {
    match parse_decl_spec(s, k, after_kw) {
        Some((name, e)) => {
            let ne = name_end_spec(s, after_kw);
            let (b, c) = split_sig(s.subrange(ne, e));
            Some((SSig { kind: decl_keywords()[k], name, binders: b, conclusion: c }, e))
        },
        None => None,
    }
}

/// The signatures of the declarations of `s` from `i` on, each scan resuming
/// where the previous signature ended.
pub open spec fn sigs_from(s: Seq<char>, i: int) -> Seq<SSig>
    decreases s.len() - i,
{
    if i < 0 || i >= s.len() {
        Seq::empty()
    } else {
        match keyword_at(s, i) {
            Some(k) => match decl_sig_spec(s, k, i + decl_keywords()[k].len()) {
                Some((sig, e)) => if i < e <= s.len() {
                    seq![sig] + sigs_from(s, e)
                } else {
                    sigs_from(s, i + 1)
                },
                None => sigs_from(s, i + 1),
            },
            None => sigs_from(s, i + 1),
        }
    }
}

/// Every top-level `theorem` / `lemma` / `example` / `def` signature of a
/// Lean source, located over its sanitized text.
pub open spec fn all_sigs_spec(src: Seq<char>) -> Seq<SSig> {
    sigs_from(sanitize_spec(src), 0)
}

/// [`statement_colon_from`] over the window `s[lo..hi]`, relative to `lo`.
pub(crate) fn statement_colon(s: &Vec<char>, lo: usize, hi: usize) -> (r: Option<usize>)
    requires
        lo <= hi <= s@.len(),
    ensures
        match r {
            Some(c) => lo <= c < hi && statement_colon_from(s@.subrange(lo as int, hi as int), 0, 0) == Some(c - lo),
            None => statement_colon_from(s@.subrange(lo as int, hi as int), 0, 0) is None,
        },
{
    let ghost w = s@.subrange(lo as int, hi as int);
    let mut depth: usize = 0;
    let mut i: usize = lo;
    while i < hi
        invariant
            lo <= i <= hi <= s@.len(),
            depth <= i,
            w == s@.subrange(lo as int, hi as int),
            statement_colon_from(w, 0, 0) == statement_colon_from(w, i - lo, depth as nat),
        decreases hi - i,
    {
        let c = s[i];
        assert(w[i - lo] == c);
        if c == '(' || c == '[' || c == '{' || c == '⟨' || c == '⦃' {
            depth = depth + 1;
        } else if c == ')' || c == ']' || c == '}' || c == '⟩' || c == '⦄' {
            if depth > 0 {
                depth = depth - 1;
            }
        } else if c == ':' && depth == 0 && !(i + 1 < hi && s[i + 1] == '=') {
            proof {
                if i + 1 < hi {
                    assert(w[i - lo + 1] == s@[i + 1]);
                }
            }
            return Some(i);
        } else {
            proof {
                if c == ':' && depth == 0 {
                    assert(w[i - lo + 1] == s@[i + 1]);
                }
            }
        }
        i = i + 1;
    }
    None
}

/// [`decl_sig_spec`] computed.
fn parse_decl_sig(s: &Vec<char>, k: usize, after_kw: usize, kws: &Vec<Vec<char>>) -> (r: Option<(TheoremSig, usize)>)
    requires
        after_kw <= s@.len(),
        k < 4,
        kws@.len() == 4,
        words_view(kws@) == decl_keywords(),
    ensures
        match r {
            Some((sig, e)) => decl_sig_spec(s@, k as int, after_kw as int) == Some((sig@, e as int)) && e <= s@.len(),
            None => decl_sig_spec(s@, k as int, after_kw as int) is None,
        },
{
    let n = s.len();
    let j = skip_class(s, after_kw, n, CharClass::White);
    let e = find_class(s, j, n, CharClass::NonIdent);
    proof {
        assert(s@.skip(after_kw as int) == s@.subrange(after_kw as int, n as int));
        assert(class_pred(CharClass::White) == white_pred());
        assert(s@.skip(j as int) == s@.subrange(j as int, n as int));
        assert(name_end_spec(s@, after_kw as int) == e);
    }
    let sig_end = signature_end(s, e, kws);
    let name = if e == j {
        if k == 2 {
            owned("<example>")
        } else {
            return None;
        }
    } else {
        string_of_range(s, j, e)
    };
    let ghost region = s@.subrange(e as int, sig_end as int);
    let (binders, conclusion) = match statement_colon(s, e, sig_end) {
        Some(c) => {
            proof {
                assert(region.take(c - e) == s@.subrange(e as int, c as int));
                assert(region.skip(c - e + 1) == s@.subrange(c + 1, sig_end as int));
            }
            (normalize_ws(s, e, c), normalize_ws(s, c + 1, sig_end))
        },
        None => (normalize_ws(s, e, sig_end), Vec::new()),
    };
    assert(kws@[k as int]@ == decl_keywords()[k as int]) by {
        assert(words_view(kws@)[k as int] == kws@[k as int]@);
    }
    let kind = string_of(&kws[k]);
    let sig = TheoremSig { kind, name, binders: string_of(&binders), conclusion: string_of(&conclusion) };
    Some((sig, sig_end))
}

/// Every top-level signature of the already-sanitized `s`.
fn sigs_of_sanitized(s: &Vec<char>) -> (r: Vec<TheoremSig>)
    ensures
        sigs_view(r@) == sigs_from(s@, 0),
{
    let kws = word_list(&["theorem", "lemma", "example", "def"]);
    assert(words_view(kws@) =~= decl_keywords());
    assert(kws@.len() == 4);
    let n = s.len();
    let mut out: Vec<TheoremSig> = Vec::new();
    let mut i: usize = 0;
    assert(sigs_view(out@) + sigs_from(s@, 0) =~= sigs_from(s@, 0));
    while i < n
        invariant
            i <= n == s@.len(),
            kws@.len() == 4,
            words_view(kws@) == decl_keywords(),
            sigs_view(out@) + sigs_from(s@, i as int) == sigs_from(s@, 0),
        decreases n - i,
    {
        let ghost o0 = sigs_view(out@);
        if let Some(k) = keyword_at_exec(s, i, &kws) {
            let klen = kws[k].len();
            proof {
                assert(words_view(kws@)[k as int] == kws@[k as int]@);
                lemma_first_keyword(s@, i as int, 0);
            }
            if let Some((sig, e)) = parse_decl_sig(s, k, i + klen, &kws) {
                if e > i {
                    let ghost sv = sig@;
                    out.push(sig);
                    assert(sigs_view(out@) =~= o0.push(sv));
                    assert(o0.push(sv) + sigs_from(s@, e as int) =~= o0 + sigs_from(s@, i as int));
                    i = e;
                    continue;
                }
            }
        }
        i = i + 1;
    }
    assert(sigs_view(out@) + Seq::<SSig>::empty() =~= sigs_view(out@));
    out
}

/// Every top-level `theorem` / `lemma` / `example` / `def` signature of a
/// Lean source, in source order; keywords inside comments or string literals
/// start none.
pub fn parse_all_decls(src: &str) -> (r: Vec<TheoremSig>)
    ensures
        sigs_view(r@) == all_sigs_spec(src@),
{
    let raw = chars_of(src);
    let san = sanitize_chars(&raw);
    sigs_of_sanitized(&san)
}

// ===========================================================================
// Bound variables and alpha-renaming
// ===========================================================================

/// The bracket that closes `c`, when `c` opens a binder group.
pub open spec fn bracket_close(c: char) -> Option<char> {
    if c == '(' {
        Some(')')
    } else if c == '{' {
        Some('}')
    } else if c == '[' {
        Some(']')
    } else if c == '⟨' {
        Some('⟩')
    } else if c == '⦃' {
        Some('⦄')
    } else {
        None
    }
}

/// Where a group opened by `open` ends, scanning from `k` at nesting `depth`
/// of that bracket kind: the close that brings the depth to 0, or the end.
pub open spec fn group_end(s: Seq<char>, open: char, close: char, k: int, depth: nat) -> int
    decreases s.len() - k,
{
    if k < 0 || k >= s.len() {
        s.len() as int
    } else {
        let d: int = if s[k] == open { depth as int + 1 } else if s[k] == close { depth as int - 1 } else { depth as int };
        if d <= 0 { k } else { group_end(s, open, close, k + 1, d as nat) }
    }
}

pub(crate) proof fn lemma_group_end(s: Seq<char>, open: char, close: char, k: int, depth: nat)
    requires
        0 <= k <= s.len(),
    ensures
        k <= group_end(s, open, close, k, depth) <= s.len(),
    decreases s.len() - k,
{
    if k < s.len() {
        let d: int = if s[k] == open { depth as int + 1 } else if s[k] == close { depth as int - 1 } else { depth as int };
        if d > 0 {
            lemma_group_end(s, open, close, k + 1, d as nat);
        }
    }
}

/// The first `:` at bracket depth 0 of `s` scanned from `i` at `depth`, or
/// the end: where a binder group's names stop.
pub open spec fn name_cut_from(s: Seq<char>, i: int, depth: nat) -> int
    decreases s.len() - i,
{
    if i < 0 || i >= s.len() {
        s.len() as int
    } else if opener(s[i]) {
        name_cut_from(s, i + 1, depth + 1)
    } else if closer(s[i]) {
        name_cut_from(s, i + 1, if depth > 0 { (depth - 1) as nat } else { 0 })
    } else if s[i] == ':' && depth == 0 {
        i
    } else {
        name_cut_from(s, i + 1, depth)
    }
}

/// A finished identifier run, unless it is empty or the anonymous `_`.
pub open spec fn emit_ident(cur: Seq<char>) -> Seq<Seq<char>> {
    if cur.len() > 0 && cur != seq!['_'] { seq![cur] } else { Seq::empty() }
}

/// The maximal runs of word characters of `s` from `i`, `cur` being the run
/// in progress; the anonymous binder `_` is left out.
pub open spec fn ident_runs(s: Seq<char>, i: int, cur: Seq<char>) -> Seq<Seq<char>>
    decreases s.len() - i,
{
    if i < 0 || i >= s.len() {
        emit_ident(cur)
    } else if is_word_char(s[i]) {
        ident_runs(s, i + 1, cur.push(s[i]))
    } else {
        emit_ident(cur) + ident_runs(s, i + 1, Seq::empty())
    }
}

/// `vars` extended with `names[..j]`, skipping names already present.
pub open spec fn add_unique(vars: Seq<Seq<char>>, names: Seq<Seq<char>>, j: int) -> Seq<Seq<char>>
    decreases j,
{
    if j <= 0 {
        vars
    } else {
        let prev = add_unique(vars, names, j - 1);
        if prev.contains(names[j - 1]) { prev } else { prev.push(names[j - 1]) }
    }
}

/// The bound variables of a binder region from `i` on, added to `vars`: in
/// each bracketed group, the identifiers before the group's own `:`.
pub open spec fn binder_vars_from(b: Seq<char>, i: int, vars: Seq<Seq<char>>) -> Seq<Seq<char>>
    decreases b.len() - i,
{
    if i < 0 || i >= b.len() {
        vars
    } else {
        match bracket_close(b[i]) {
            Some(cl) => {
                let k = group_end(b, b[i], cl, i + 1, 1);
                let inner = b.subrange(i + 1, k);
                let names = ident_runs(inner.take(name_cut_from(inner, 0, 0)), 0, Seq::empty());
                let vs = add_unique(vars, names, names.len() as int);
                if i < k && k < b.len() {
                    binder_vars_from(b, k + 1, vs)
                } else {
                    vs
                }
            },
            None => binder_vars_from(b, i + 1, vars),
        }
    }
}

/// The bound variables a binder region introduces, in order, without
/// repeats.
pub open spec fn binder_vars_spec(b: Seq<char>) -> Seq<Seq<char>> {
    binder_vars_from(b, 0, Seq::empty())
}

/// Whether `n` occurs at `i` of `c` as a whole word.
pub open spec fn word_hit(c: Seq<char>, i: int, n: Seq<char>) -> bool {
    &&& n.len() > 0
    &&& 0 <= i
    &&& i + n.len() <= c.len()
    &&& c.subrange(i, i + n.len()) == n
    &&& (i == 0 || !is_word_char(c[i - 1]))
    &&& (i + n.len() == c.len() || !is_word_char(c[i + n.len()]))
}

/// `c[i..]` with every whole-word occurrence of `n` replaced by `r`.
pub open spec fn replace_word_from(c: Seq<char>, n: Seq<char>, r: Seq<char>, i: int) -> Seq<char>
    decreases c.len() - i,
{
    if i < 0 || i >= c.len() {
        Seq::empty()
    } else if word_hit(c, i, n) {
        r + replace_word_from(c, n, r, i + n.len())
    } else {
        seq![c[i]] + replace_word_from(c, n, r, i + 1)
    }
}

/// The positional token of the `j`th bound variable: `#j`.
pub open spec fn var_token(j: nat) -> Seq<char> {
    seq!['#'] + decimal(j)
}

/// `c` with the bound variables `vars[..j]` renamed to their positional
/// tokens, one after another.
pub open spec fn alpha_fold(c: Seq<char>, vars: Seq<Seq<char>>, j: int) -> Seq<char>
    decreases j,
{
    if j <= 0 {
        c
    } else {
        let prev = alpha_fold(c, vars, j - 1);
        if vars[j - 1].len() == 0 { prev } else { replace_word_from(prev, vars[j - 1], var_token((j - 1) as nat), 0) }
    }
}

/// The alpha-canonical form of `binders ⊢ conclusion` under the bound
/// variables `vars`.
pub open spec fn alpha_spec(b: Seq<char>, c: Seq<char>, vars: Seq<Seq<char>>) -> Seq<char> {
    normalize_ws_spec(alpha_fold(b + seq![' ', '⊢', ' '] + c, vars, vars.len() as int))
}

/// Whether two signatures agree: `Some(false)` up to whitespace,
/// `Some(true)` only after renaming the same number of bound variables
/// positionally, `None` otherwise.
pub open spec fn sig_match_spec(c: SSig, s: SSig) -> Option<bool> {
    let cb = normalize_ws_spec(c.binders);
    let sb = normalize_ws_spec(s.binders);
    let cc = normalize_ws_spec(c.conclusion);
    let sc = normalize_ws_spec(s.conclusion);
    if cb == sb && cc == sc {
        Some(false)
    } else {
        let cv = binder_vars_spec(c.binders);
        let sv = binder_vars_spec(s.binders);
        if cv.len() > 0 && cv.len() == sv.len() && alpha_spec(cb, cc, cv) == alpha_spec(sb, sc, sv) {
            Some(true)
        } else {
            None
        }
    }
}

/// The whitespace-normalized form of a string.
pub(crate) fn norm_str(s: &str) -> (r: Vec<char>)
    ensures
        r@ == normalize_ws_spec(s@),
{
    let v = chars_of(s);
    assert(v@.subrange(0, v@.len() as int) == v@);
    normalize_ws(&v, 0, v.len())
}

/// [`group_end`] from `start` at depth 1.
pub(crate) fn group_end_exec(b: &Vec<char>, open: char, close: char, start: usize) -> (k: usize)
    requires
        1 <= start <= b@.len(),
        open != close,
    ensures
        k as int == group_end(b@, open, close, start as int, 1),
        start <= k <= b@.len(),
{
    let n = b.len();
    let mut depth: usize = 1;
    let mut k: usize = start;
    while k < n
        invariant
            1 <= start <= k <= n == b@.len(),
            1 <= depth <= k - start + 1,
            group_end(b@, open, close, start as int, 1) == group_end(b@, open, close, k as int, depth as nat),
        decreases n - k,
    {
        if b[k] == open {
            depth = depth + 1;
        } else if b[k] == close {
            depth = depth - 1;
            if depth == 0 {
                return k;
            }
        }
        k = k + 1;
    }
    k
}

/// [`name_cut_from`] over the whole of `s`.
fn name_cut(s: &Vec<char>) -> (r: usize)
    ensures
        r as int == name_cut_from(s@, 0, 0),
        r <= s@.len(),
{
    let n = s.len();
    let mut depth: usize = 0;
    let mut i: usize = 0;
    while i < n
        invariant
            i <= n == s@.len(),
            depth <= i,
            name_cut_from(s@, 0, 0) == name_cut_from(s@, i as int, depth as nat),
        decreases n - i,
    {
        let c = s[i];
        if c == '(' || c == '[' || c == '{' || c == '⟨' || c == '⦃' {
            depth = depth + 1;
        } else if c == ')' || c == ']' || c == '}' || c == '⟩' || c == '⦄' {
            if depth > 0 {
                depth = depth - 1;
            }
        } else if c == ':' && depth == 0 {
            return i;
        }
        i = i + 1;
    }
    n
}

/// The identifiers of `s[..hi]` (see [`ident_runs`]).
fn idents(s: &Vec<char>, hi: usize) -> (r: Vec<Vec<char>>)
    requires
        hi <= s@.len(),
    ensures
        words_view(r@) == ident_runs(s@.take(hi as int), 0, Seq::empty()),
{
    let ghost t = s@.take(hi as int);
    let mut out: Vec<Vec<char>> = Vec::new();
    let mut cur: Vec<char> = Vec::new();
    let mut i: usize = 0;
    while i < hi
        invariant
            i <= hi <= s@.len(),
            t == s@.take(hi as int),
            words_view(out@) + ident_runs(t, i as int, cur@) == ident_runs(t, 0, Seq::empty()),
        decreases hi - i,
    {
        let c = s[i];
        assert(t[i as int] == c);
        if is_word(c) {
            cur.push(c);
        } else {
            let ghost o0 = words_view(out@);
            let ghost c0 = cur@;
            let keep = cur.len() > 0 && !(cur.len() == 1 && cur[0] == '_');
            proof {
                if cur@.len() == 1 && cur@[0] == '_' {
                    assert(cur@ =~= seq!['_']);
                } else if cur@.len() > 0 {
                    assert(cur@ != seq!['_']);
                }
            }
            if keep {
                out.push(cur);
                assert(words_view(out@) =~= o0 + emit_ident(c0));
            } else {
                assert(o0 + emit_ident(c0) =~= o0);
            }
            assert(o0 + emit_ident(c0) + ident_runs(t, i + 1, Seq::empty()) =~= o0 + ident_runs(t, i as int, c0));
            cur = Vec::new();
        }
        i = i + 1;
    }
    let ghost o0 = words_view(out@);
    let ghost c0 = cur@;
    let keep = cur.len() > 0 && !(cur.len() == 1 && cur[0] == '_');
    proof {
        if cur@.len() == 1 && cur@[0] == '_' {
            assert(cur@ =~= seq!['_']);
        } else if cur@.len() > 0 {
            assert(cur@ != seq!['_']);
        }
    }
    if keep {
        out.push(cur);
        assert(words_view(out@) =~= o0 + emit_ident(c0));
    } else {
        assert(o0 + emit_ident(c0) =~= o0);
    }
    out
}

/// Whether `vars` holds `w`.
fn holds_word(vars: &Vec<Vec<char>>, w: &Vec<char>) -> (r: bool)
    ensures
        r == words_view(vars@).contains(w@),
{
    let mut i: usize = 0;
    while i < vars.len()
        invariant
            i <= vars@.len(),
            forall|j: int| 0 <= j < i ==> words_view(vars@)[j] != w@,
        decreases vars@.len() - i,
    {
        if chars_eq(&vars[i], w) {
            assert(words_view(vars@)[i as int] == w@);
            return true;
        }
        i = i + 1;
    }
    assert forall|j: int| #![trigger words_view(vars@)[j]] 0 <= j < words_view(vars@).len() implies words_view(vars@)[j] != w@ by {}
    false
}

/// Binder variables of a binder region (see [`binder_vars_spec`]).
fn binder_vars(b: &Vec<char>) -> (r: Vec<Vec<char>>)
    ensures
        words_view(r@) == binder_vars_spec(b@),
{
    let n = b.len();
    let mut vars: Vec<Vec<char>> = Vec::new();
    let mut i: usize = 0;
    assert(words_view(vars@) =~= Seq::<Seq<char>>::empty());
    while i < n
        invariant
            i <= n == b@.len(),
            binder_vars_spec(b@) == binder_vars_from(b@, i as int, words_view(vars@)),
        decreases n - i,
    {
        let c = b[i];
        let cl: Option<char> = if c == '(' {
            Some(')')
        } else if c == '{' {
            Some('}')
        } else if c == '[' {
            Some(']')
        } else if c == '⟨' {
            Some('⟩')
        } else if c == '⦃' {
            Some('⦄')
        } else {
            None
        };
        assert(cl == bracket_close(b@[i as int]));
        match cl {
            Some(close) => {
                let k = group_end_exec(b, c, close, i + 1);
                let mut inner: Vec<char> = Vec::new();
                crate::text::extend_chars(&mut inner, b, i + 1, k);
                assert(inner@ =~= b@.subrange(i + 1, k as int));
                let cut = name_cut(&inner);
                let names = idents(&inner, cut);
                let ghost nv = words_view(names@);
                let mut j: usize = 0;
                let ghost v0 = words_view(vars@);
                while j < names.len()
                    invariant
                        j <= names@.len(),
                        nv == words_view(names@),
                        words_view(vars@) == add_unique(v0, nv, j as int),
                    decreases names@.len() - j,
                {
                    assert(nv[j as int] == names@[j as int]@);
                    if !holds_word(&vars, &names[j]) {
                        let ghost p = words_view(vars@);
                        vars.push(names[j].clone());
                        assert(words_view(vars@) =~= p.push(nv[j as int]));
                    }
                    j = j + 1;
                }
                assert(nv.len() == names@.len());
                proof {
                    lemma_group_end(b@, c, close, i + 1, 1);
                    assert(inner@.take(cut as int) == inner@.take(name_cut_from(inner@, 0, 0)));
                }
                if k < n {
                    i = k + 1;
                } else {
                    i = n;
                }
            },
            None => {
                i = i + 1;
            },
        }
    }
    vars
}

/// Exec [`word_hit`].
pub(crate) fn word_hit_exec(c: &Vec<char>, i: usize, n: &Vec<char>) -> (r: bool)
    requires
        i <= c@.len(),
    ensures
        r == word_hit(c@, i as int, n@),
{
    if n.len() == 0 || n.len() > c.len() - i {
        return false;
    }
    if !window_eq(c, i, n) {
        return false;
    }
    let e = i + n.len();
    (i == 0 || !is_word(c[i - 1])) && (e == c.len() || !is_word(c[e]))
}

/// `c` with every whole-word occurrence of `n` replaced by `r`.
fn replace_word(c: &Vec<char>, n: &Vec<char>, r: &Vec<char>) -> (out: Vec<char>)
    requires
        n@.len() > 0,
    ensures
        out@ == replace_word_from(c@, n@, r@, 0),
{
    let len = c.len();
    let mut out: Vec<char> = Vec::new();
    let mut i: usize = 0;
    while i < len
        invariant
            i <= len == c@.len(),
            n@.len() > 0,
            out@ + replace_word_from(c@, n@, r@, i as int) == replace_word_from(c@, n@, r@, 0),
        decreases len - i,
    {
        let ghost o0 = out@;
        if word_hit_exec(c, i, n) {
            crate::text::extend_chars(&mut out, r, 0, r.len());
            assert(r@.subrange(0, r@.len() as int) == r@);
            assert(o0 + r@ + replace_word_from(c@, n@, r@, i + n@.len()) =~= o0 + replace_word_from(c@, n@, r@, i as int));
            i = i + n.len();
        } else {
            out.push(c[i]);
            assert(o0.push(c@[i as int]) + replace_word_from(c@, n@, r@, i + 1) =~= o0 + replace_word_from(c@, n@, r@, i as int));
            i = i + 1;
        }
    }
    assert(out@ + Seq::<char>::empty() =~= out@);
    out
}

/// The alpha-canonical form (see [`alpha_spec`]).
fn alpha_canonicalize(b: &Vec<char>, c: &Vec<char>, vars: &Vec<Vec<char>>) -> (r: Vec<char>)
    ensures
        r@ == alpha_spec(b@, c@, words_view(vars@)),
{
    let mut chars: Vec<char> = Vec::new();
    crate::text::extend_chars(&mut chars, b, 0, b.len());
    chars.push(' ');
    chars.push('⊢');
    chars.push(' ');
    crate::text::extend_chars(&mut chars, c, 0, c.len());
    assert(chars@ =~= b@ + seq![' ', '⊢', ' '] + c@);
    let ghost base = chars@;
    let ghost vv = words_view(vars@);
    let mut j: usize = 0;
    while j < vars.len()
        invariant
            j <= vars@.len(),
            vv == words_view(vars@),
            chars@ == alpha_fold(base, vv, j as int),
        decreases vars@.len() - j,
    {
        assert(vv[j as int] == vars@[j as int]@);
        if vars[j].len() > 0 {
            let mut tok = owned("#");
            crate::text::push_decimal(&mut tok, j);
            proof {
                reveal_strlit("#");
            }
            let tv = chars_of(tok.as_str());
            assert(tv@ =~= var_token(j as nat));
            chars = replace_word(&chars, &vars[j], &tv);
        }
        j = j + 1;
    }
    assert(vv.len() == vars@.len());
    assert(chars@.subrange(0, chars@.len() as int) == chars@);
    normalize_ws(&chars, 0, chars.len())
}

/// [`sig_match_spec`] computed.
fn sig_matches(c: &TheoremSig, s: &TheoremSig) -> (r: Option<bool>)
    ensures
        r == sig_match_spec(c@, s@),
{
    let cb = norm_str(c.binders.as_str());
    let sb = norm_str(s.binders.as_str());
    let cc = norm_str(c.conclusion.as_str());
    let sc = norm_str(s.conclusion.as_str());
    if chars_eq(&cb, &sb) && chars_eq(&cc, &sc) {
        return Some(false);
    }
    let cbv = chars_of(c.binders.as_str());
    let sbv = chars_of(s.binders.as_str());
    let cv = binder_vars(&cbv);
    let sv = binder_vars(&sbv);
    assert(words_view(cv@).len() == cv@.len() && words_view(sv@).len() == sv@.len());
    if cv.len() > 0 && cv.len() == sv.len() {
        let ca = alpha_canonicalize(&cb, &cc, &cv);
        let sa = alpha_canonicalize(&sb, &sc, &sv);
        if chars_eq(&ca, &sa) {
            return Some(true);
        }
    }
    None
}

// ===========================================================================
// Classification and reports
// ===========================================================================

/// Whether a conclusion is a trivial proposition a restatement resolves to.
pub open spec fn is_trivial_spec(c: Seq<char>) -> bool {
    let t = normalize_ws_spec(c);
    t == "True"@ || t == "true"@ || t == "trivial"@ || t == "⊤"@
}

/// The finding of a trivially restated conclusion.
pub open spec fn trivial_msg(name: Seq<char>, sc: Seq<char>, cc: Seq<char>) -> Seq<char> {
    "trivially-restated statement: theorem `"@ + name + "` now concludes `"@ + sc
        + "` instead of the canonical goal `"@ + cc + "` — the original goal is not proved"@
}

/// The finding of changed binders.
pub open spec fn binders_msg(name: Seq<char>, cb: Seq<char>, sb: Seq<char>) -> Seq<char> {
    "weakened/altered binders: theorem `"@ + name + "` binders changed from `"@ + cb + "` to `"@ + sb
        + "` (possible weakening — a hypothesis may have been dropped)"@
}

/// The finding of a changed conclusion.
pub open spec fn conclusion_msg(name: Seq<char>, cc: Seq<char>, sc: Seq<char>) -> Seq<char> {
    "altered conclusion: theorem `"@ + name + "` goal changed from `"@ + cc + "` to `"@ + sc
        + "` (possible weakening/restatement)"@
}

/// The finding of a statement proved under another name.
pub open spec fn renamed_msg(name: Seq<char>, other: Seq<char>) -> Seq<char> {
    "renamed statement: the canonical theorem `"@ + name + "` is proved under the different name `"@ + other
        + "` — the canonical name is never established"@
}

/// The finding of a canonical statement that does not parse.
pub open spec fn unparsable_msg(isabelle: bool) -> Seq<char> {
    if isabelle {
        "Isabelle canonical statement did not parse into a quoted `theorem`/`lemma` signature (fail-closed: cannot confirm preservation)"@
    } else {
        "canonical statement did not parse into a `theorem`/`lemma` signature (fail-closed: cannot confirm preservation)"@
    }
}

/// The finding of a canonical theorem the submission does not declare.
pub open spec fn missing_msg(isabelle: bool, name: Seq<char>) -> Seq<char> {
    if isabelle {
        "missing statement: no quoted Isabelle declaration in the submission proves the canonical theorem `"@ + name + "`"@
    } else {
        "missing statement: no declaration in the submission proves the canonical theorem `"@ + name
            + "` (name + signature not found)"@
    }
}

/// The verdict and findings for a same-name pair.
pub open spec fn classify_spec(c: SSig, s: SSig) -> (PreservationVerdict, Seq<Seq<char>>) {
    match sig_match_spec(c, s) {
        Some(alpha) => (if alpha { PreservationVerdict::PreservedAlpha } else { PreservationVerdict::Preserved }, Seq::empty()),
        None => {
            let cb = normalize_ws_spec(c.binders);
            let sb = normalize_ws_spec(s.binders);
            let cc = normalize_ws_spec(c.conclusion);
            let sc = normalize_ws_spec(s.conclusion);
            if is_trivial_spec(s.conclusion) && !is_trivial_spec(c.conclusion) {
                (PreservationVerdict::TriviallyRestated, seq![trivial_msg(c.name, sc, cc)])
            } else if cb != sb {
                (PreservationVerdict::BindersChanged, seq![binders_msg(c.name, cb, sb)])
            } else {
                (PreservationVerdict::ConclusionChanged, seq![conclusion_msg(c.name, cc, sc)])
            }
        },
    }
}

/// The first of `ss[i..]` named `name`.
pub open spec fn first_named(ss: Seq<SSig>, name: Seq<char>, i: int) -> Option<int>
    decreases ss.len() - i,
{
    if i < 0 || i >= ss.len() {
        None
    } else if ss[i].name == name {
        Some(i)
    } else {
        first_named(ss, name, i + 1)
    }
}

/// The first of `ss[i..]` whose signature matches `c`.
pub open spec fn first_matching(ss: Seq<SSig>, c: SSig, i: int) -> Option<int>
    decreases ss.len() - i,
{
    if i < 0 || i >= ss.len() {
        None
    } else if sig_match_spec(c, ss[i]) is Some {
        Some(i)
    } else {
        first_matching(ss, c, i + 1)
    }
}

/// The model of a preservation report.
pub ghost struct SPreservation {
    pub verdict: PreservationVerdict,
    pub findings: Seq<Seq<char>>,
    pub canonical: Option<SSig>,
    pub submitted: Option<SSig>,
}

/// Compare the first canonical signature with the submitted ones: prefer
/// the same name, else detect a rename, else report it missing.
pub open spec fn compare_sigs(cs: Seq<SSig>, ss: Seq<SSig>, isabelle: bool) -> SPreservation {
    if cs.len() == 0 {
        SPreservation {
            verdict: PreservationVerdict::CanonicalUnparsable,
            findings: seq![unparsable_msg(isabelle)],
            canonical: None,
            submitted: None,
        }
    } else {
        let c = cs[0];
        match first_named(ss, c.name, 0) {
            Some(i) => {
                let (v, f) = classify_spec(c, ss[i]);
                SPreservation { verdict: v, findings: f, canonical: Some(c), submitted: Some(ss[i]) }
            },
            None => match first_matching(ss, c, 0) {
                Some(i) => SPreservation {
                    verdict: PreservationVerdict::Renamed,
                    findings: seq![renamed_msg(c.name, ss[i].name)],
                    canonical: Some(c),
                    submitted: Some(ss[i]),
                },
                None => SPreservation {
                    verdict: PreservationVerdict::SubmittedMissing,
                    findings: seq![missing_msg(isabelle, c.name)],
                    canonical: Some(c),
                    submitted: None,
                },
            },
        }
    }
}

/// What [`check_statement_preserved`] reports for a canonical statement and
/// a submission.
pub open spec fn preservation_spec(canonical: Seq<char>, submitted: Seq<char>) -> SPreservation {
    compare_sigs(all_sigs_spec(canonical), all_sigs_spec(submitted), false)
}

/// The result of a statement-preservation check.
#[derive(Debug, Clone, PartialEq, Eq)]
pub struct PreservationReport {
    /// `true` iff the submission declares the canonical statement (up to
    /// whitespace and alpha-renaming).
    pub preserved: bool,
    /// The structured verdict.
    pub verdict: PreservationVerdict,
    /// Human-readable findings (empty iff preserved).
    pub findings: Vec<String>,
    /// The canonical signature (`None` if unparsable).
    pub canonical: Option<TheoremSig>,
    /// The submitted signature compared against (`None` if none found).
    pub submitted: Option<TheoremSig>,
}

/// The model of a [`PreservationReport`].
pub open spec fn preservation_view(r: PreservationReport) -> SPreservation {
    SPreservation {
        verdict: r.verdict,
        findings: r.findings@.map_values(|f: String| f@),
        canonical: opt_sig_view(r.canonical),
        submitted: opt_sig_view(r.submitted),
    }
}

/// A well-formed report: `preserved` mirrors the verdict.
pub open spec fn report_wf(r: PreservationReport) -> bool {
    r.preserved == (r.verdict == PreservationVerdict::Preserved || r.verdict == PreservationVerdict::PreservedAlpha)
}

impl PreservationReport {
    /// The report as a scan result: clean iff preserved, with the same
    /// findings.
    pub fn into_scan_report(self) -> (r: ScanReport)
        ensures
            r.clean == self.preserved,
            r.findings@ == self.findings@,
    {
        ScanReport { clean: self.preserved, findings: self.findings }
    }
}

/// A copy of a signature.
pub(crate) fn clone_sig(s: &TheoremSig) -> (r: TheoremSig)
    ensures
        r@ == s@,
{
    TheoremSig {
        kind: s.kind.clone(),
        name: s.name.clone(),
        binders: s.binders.clone(),
        conclusion: s.conclusion.clone(),
    }
}

/// A one-finding list.
fn one(m: String) -> (r: Vec<String>)
    ensures
        r@.map_values(|f: String| f@) == seq![m@],
{
    let mut v: Vec<String> = Vec::new();
    v.push(m);
    assert(v@.map_values(|f: String| f@) =~= seq![m@]);
    v
}

/// An owned string from normalized characters.
pub(crate) fn norm_string(s: &str) -> (r: String)
    ensures
        r@ == normalize_ws_spec(s@),
{
    let v = norm_str(s);
    string_of(&v)
}

/// Whether a conclusion is trivial.
fn is_trivial(c: &str) -> (r: bool)
    ensures
        r == is_trivial_spec(c@),
{
    let t = norm_str(c);
    let a = chars_of("True");
    let b = chars_of("true");
    let d = chars_of("trivial");
    let e = chars_of("⊤");
    chars_eq(&t, &a) || chars_eq(&t, &b) || chars_eq(&t, &d) || chars_eq(&t, &e)
}

/// [`classify_spec`] computed.
fn classify(c: &TheoremSig, s: &TheoremSig) -> (r: (PreservationVerdict, Vec<String>))
    ensures
        (r.0, r.1@.map_values(|f: String| f@)) == classify_spec(c@, s@),
{
    match sig_matches(c, s) {
        Some(alpha) => {
            let v: Vec<String> = Vec::new();
            assert(v@.map_values(|f: String| f@) =~= Seq::<Seq<char>>::empty());
            (if alpha { PreservationVerdict::PreservedAlpha } else { PreservationVerdict::Preserved }, v)
        },
        None => {
            let cb = norm_string(c.binders.as_str());
            let sb = norm_string(s.binders.as_str());
            let cc = norm_string(c.conclusion.as_str());
            let sc = norm_string(s.conclusion.as_str());
            if is_trivial(s.conclusion.as_str()) && !is_trivial(c.conclusion.as_str()) {
                let mut m = owned("trivially-restated statement: theorem `");
                m.append(c.name.as_str());
                m.append("` now concludes `");
                m.append(sc.as_str());
                m.append("` instead of the canonical goal `");
                m.append(cc.as_str());
                m.append("` — the original goal is not proved");
                (PreservationVerdict::TriviallyRestated, one(m))
            } else if !crate::text::str_eq(cb.as_str(), sb.as_str()) {
                let mut m = owned("weakened/altered binders: theorem `");
                m.append(c.name.as_str());
                m.append("` binders changed from `");
                m.append(cb.as_str());
                m.append("` to `");
                m.append(sb.as_str());
                m.append("` (possible weakening — a hypothesis may have been dropped)");
                (PreservationVerdict::BindersChanged, one(m))
            } else {
                let mut m = owned("altered conclusion: theorem `");
                m.append(c.name.as_str());
                m.append("` goal changed from `");
                m.append(cc.as_str());
                m.append("` to `");
                m.append(sc.as_str());
                m.append("` (possible weakening/restatement)");
                (PreservationVerdict::ConclusionChanged, one(m))
            }
        },
    }
}

/// Build a report, `preserved` mirroring the verdict.
fn make_report(
    verdict: PreservationVerdict,
    findings: Vec<String>,
    canonical: Option<TheoremSig>,
    submitted: Option<TheoremSig>,
) -> (r: PreservationReport)
    ensures
        report_wf(r),
        r.verdict == verdict,
        r.findings@ == findings@,
        r.canonical == canonical,
        r.submitted == submitted,
{
    PreservationReport { preserved: verdict.is_preserved(), verdict, findings, canonical, submitted }
}

/// [`compare_sigs`] computed.
fn compare_decls(cs: &Vec<TheoremSig>, ss: &Vec<TheoremSig>, isabelle: bool) -> (r: PreservationReport)
    ensures
        report_wf(r),
        preservation_view(r) == compare_sigs(sigs_view(cs@), sigs_view(ss@), isabelle),
{
    let ghost cv = sigs_view(cs@);
    let ghost sv = sigs_view(ss@);
    if cs.len() == 0 {
        let m = if isabelle {
            owned("Isabelle canonical statement did not parse into a quoted `theorem`/`lemma` signature (fail-closed: cannot confirm preservation)")
        } else {
            owned("canonical statement did not parse into a `theorem`/`lemma` signature (fail-closed: cannot confirm preservation)")
        };
        return make_report(PreservationVerdict::CanonicalUnparsable, one(m), None, None);
    }
    let c = &cs[0];
    assert(cv[0] == c@);
    let mut i: usize = 0;
    while i < ss.len()
        invariant
            i <= ss@.len(),
            sv == sigs_view(ss@),
            cv == sigs_view(cs@),
            cs@.len() > 0,
            cv[0] == c@,
            first_named(sv, c@.name, 0) == first_named(sv, c@.name, i as int),
        decreases ss@.len() - i,
    {
        assert(sv[i as int] == ss@[i as int]@);
        if crate::text::str_eq(ss[i].name.as_str(), c.name.as_str()) {
            let (v, f) = classify(c, &ss[i]);
            return make_report(v, f, Some(clone_sig(c)), Some(clone_sig(&ss[i])));
        }
        i = i + 1;
    }
    let mut j: usize = 0;
    while j < ss.len()
        invariant
            j <= ss@.len(),
            sv == sigs_view(ss@),
            cv == sigs_view(cs@),
            cs@.len() > 0,
            cv[0] == c@,
            first_named(sv, c@.name, 0) is None,
            first_matching(sv, c@, 0) == first_matching(sv, c@, j as int),
        decreases ss@.len() - j,
    {
        assert(sv[j as int] == ss@[j as int]@);
        if sig_matches(c, &ss[j]).is_some() {
            let mut m = owned("renamed statement: the canonical theorem `");
            m.append(c.name.as_str());
            m.append("` is proved under the different name `");
            m.append(ss[j].name.as_str());
            m.append("` — the canonical name is never established");
            return make_report(PreservationVerdict::Renamed, one(m), Some(clone_sig(c)), Some(clone_sig(&ss[j])));
        }
        j = j + 1;
    }
    let m = if isabelle {
        let mut m = owned("missing statement: no quoted Isabelle declaration in the submission proves the canonical theorem `");
        m.append(c.name.as_str());
        m.append("`");
        m
    } else {
        let mut m = owned("missing statement: no declaration in the submission proves the canonical theorem `");
        m.append(c.name.as_str());
        m.append("` (name + signature not found)");
        m
    };
    make_report(PreservationVerdict::SubmittedMissing, one(m), Some(clone_sig(c)), None)
}

/// Confirm the submission proves the canonical statement: the declaration
/// sharing the canonical name must carry the same binders and conclusion up
/// to whitespace and a positional renaming of bound variables; a rename, a
/// weakening, a trivial restatement, or an unparsable canonical statement
/// fails closed.
pub fn check_statement_preserved(canonical_statement: &str, submitted_code: &str) -> (r: PreservationReport)
    ensures
        report_wf(r),
        preservation_view(r) == preservation_spec(canonical_statement@, submitted_code@),
{
    let cs = parse_all_decls(canonical_statement);
    let ss = parse_all_decls(submitted_code);
    compare_decls(&cs, &ss, false)
}

// ===========================================================================
// Isabelle
// ===========================================================================

/// A signature with no binder region: `name : conclusion`, the conclusion
/// whitespace-normalized.
pub open spec fn entry_sig(kind: Seq<char>, name: Seq<char>, conclusion: Seq<char>) -> SSig {
    SSig { kind, name, binders: Seq::empty(), conclusion: normalize_ws_spec(conclusion) }
}

/// Where `s[i..]` stops being whitespace.
pub open spec fn skip_white(s: Seq<char>, i: int) -> int {
    s.len() - ltrim(s.skip(i), white_pred()).len()
}

/// Where the identifier starting at `i` ends.
pub open spec fn ident_end(s: Seq<char>, i: int) -> int {
    let rest = s.skip(i);
    i + match first_where(rest, class_pred(CharClass::NonIdent)) {
        Some(e) => e,
        None => rest.len() as int,
    }
}

/// Just past the `"` closing a quotation whose text starts at `i`
/// (backslash escapes the next character), or the end.
pub open spec fn isa_quote_end(s: Seq<char>, i: int) -> int
    decreases s.len() - i,
{
    if i < 0 || i >= s.len() {
        s.len() as int
    } else if s[i] == '\\' && i + 1 < s.len() {
        isa_quote_end(s, i + 2)
    } else if s[i] == '"' {
        i + 1
    } else {
        isa_quote_end(s, i + 1)
    }
}

/// Just past the `*)` closing a nested comment at `depth`, scanning from
/// `i`, or the end.
pub open spec fn isa_comment_end(s: Seq<char>, i: int, depth: nat) -> int
    decreases s.len() - i,
{
    if i < 0 || i >= s.len() || depth == 0 {
        i
    } else if s[i] == '(' && i + 1 < s.len() && s[i + 1] == '*' {
        isa_comment_end(s, i + 2, depth + 1)
    } else if s[i] == '*' && i + 1 < s.len() && s[i + 1] == ')' {
        isa_comment_end(s, i + 2, (depth - 1) as nat)
    } else {
        isa_comment_end(s, i + 1, depth)
    }
}

/// A quoted Isabelle declaration after keyword `kw` ending at `i`:
/// `name: "proposition"`, and where it ends.
pub open spec fn isa_decl_at(s: Seq<char>, kw: Seq<char>, i: int) -> Option<(SSig, int)> {
    let a = skip_white(s, i);
    let b = ident_end(s, a);
    let c = skip_white(s, b);
    if b == a || c >= s.len() || s[c] != ':' {
        None
    } else {
        let d = skip_white(s, c + 1);
        if d >= s.len() || s[d] != '"' {
            None
        } else {
            let end = isa_quote_end(s, d + 1);
            if end <= d + 1 || s[end - 1] != '"' {
                None
            } else {
                Some((entry_sig(kw, s.subrange(a, b), s.subrange(d + 1, end - 1)), end))
            }
        }
    }
}

/// The Isabelle declaration keyword at `i`, tried `theorem` then `lemma`.
pub open spec fn isa_hit(s: Seq<char>, i: int) -> Option<(SSig, int)> {
    let t = if word_at(s, i, "theorem"@) { isa_decl_at(s, "theorem"@, i + "theorem"@.len()) } else { None };
    match t {
        Some(x) => Some(x),
        None => if word_at(s, i, "lemma"@) { isa_decl_at(s, "lemma"@, i + "lemma"@.len()) } else { None },
    }
}

/// The quoted Isabelle declarations of `s` from `i` on, skipping nested
/// `(* *)` comments and quotations.
pub open spec fn isa_decls_from(s: Seq<char>, i: int) -> Seq<SSig>
    decreases s.len() - i,
{
    if i < 0 || i >= s.len() {
        Seq::empty()
    } else if s[i] == '(' && i + 1 < s.len() && s[i + 1] == '*' {
        let e = isa_comment_end(s, i + 2, 1);
        if i < e <= s.len() { isa_decls_from(s, e) } else { Seq::empty() }
    } else if s[i] == '"' {
        let e = isa_quote_end(s, i + 1);
        if i < e <= s.len() { isa_decls_from(s, e) } else { Seq::empty() }
    } else {
        let hit = if i == 0 || !is_word_char(s[i - 1]) { isa_hit(s, i) } else { None };
        match hit {
            Some((sig, e)) => if i < e < s.len() { seq![sig] + isa_decls_from(s, e + 1) } else { seq![sig] },
            None => isa_decls_from(s, i + 1),
        }
    }
}

proof fn lemma_isa_quote_end(s: Seq<char>, i: int)
    requires
        0 <= i <= s.len(),
    ensures
        i <= isa_quote_end(s, i) <= s.len(),
    decreases s.len() - i,
{
    if i < s.len() {
        if s[i] == '\\' && i + 1 < s.len() {
            lemma_isa_quote_end(s, i + 2);
        } else if s[i] != '"' {
            lemma_isa_quote_end(s, i + 1);
        }
    }
}

/// [`isa_quote_end`] computed.
fn quote_end(s: &Vec<char>, from: usize) -> (r: usize)
    requires
        from <= s@.len(),
    ensures
        r as int == isa_quote_end(s@, from as int),
        from <= r <= s@.len(),
{
    proof {
        lemma_isa_quote_end(s@, from as int);
    }
    let n = s.len();
    let mut i: usize = from;
    while i < n
        invariant
            from <= i <= n == s@.len(),
            isa_quote_end(s@, from as int) == isa_quote_end(s@, i as int),
        decreases n - i,
    {
        if s[i] == '\\' && i + 1 < n {
            i = i + 2;
        } else if s[i] == '"' {
            return i + 1;
        } else {
            i = i + 1;
        }
    }
    n
}

/// [`isa_comment_end`] computed, at depth 1.
fn comment_end(s: &Vec<char>, from: usize) -> (r: usize)
    requires
        from <= s@.len(),
    ensures
        r as int == isa_comment_end(s@, from as int, 1),
        from <= r <= s@.len(),
{
    let n = s.len();
    let mut i: usize = from;
    let mut depth: usize = 1;
    while i < n && depth > 0
        invariant
            from <= i <= n == s@.len(),
            depth <= i + 1,
            isa_comment_end(s@, from as int, 1) == isa_comment_end(s@, i as int, depth as nat),
        decreases n - i,
    {
        if s[i] == '(' && i + 1 < n && s[i + 1] == '*' {
            depth = depth + 1;
            i = i + 2;
        } else if s[i] == '*' && i + 1 < n && s[i + 1] == ')' {
            depth = depth - 1;
            i = i + 2;
        } else {
            i = i + 1;
        }
    }
    i
}

/// [`isa_decl_at`] computed.
fn isa_decl(s: &Vec<char>, kw: &str, i: usize) -> (r: Option<(TheoremSig, usize)>)
    requires
        i <= s@.len(),
    ensures
        match r {
            Some((sig, e)) => isa_decl_at(s@, kw@, i as int) == Some((sig@, e as int)) && i < e <= s@.len(),
            None => isa_decl_at(s@, kw@, i as int) is None,
        },
{
    let n = s.len();
    proof {
        assert(class_pred(CharClass::White) == white_pred());
    }
    let a = skip_class(s, i, n, CharClass::White);
    assert(s@.skip(i as int) == s@.subrange(i as int, n as int));
    let b = find_class(s, a, n, CharClass::NonIdent);
    assert(s@.skip(a as int) == s@.subrange(a as int, n as int));
    let c = skip_class(s, b, n, CharClass::White);
    assert(s@.skip(b as int) == s@.subrange(b as int, n as int));
    if b == a || c >= n || s[c] != ':' {
        return None;
    }
    let d = skip_class(s, c + 1, n, CharClass::White);
    assert(s@.skip(c + 1) == s@.subrange(c + 1, n as int));
    if d >= n || s[d] != '"' {
        return None;
    }
    let end = quote_end(s, d + 1);
    if end <= d + 1 || s[end - 1] != '"' {
        return None;
    }
    let conclusion = normalize_ws(s, d + 1, end - 1);
    let sig = TheoremSig {
        kind: owned(kw),
        name: string_of_range(s, a, b),
        binders: String::new(),
        conclusion: string_of(&conclusion),
    };
    Some((sig, end))
}

/// Every quoted Isabelle `theorem` / `lemma` declaration of a source, in
/// order; a declaration inside a comment or quotation is not one.
pub fn parse_all_isabelle_decls(src: &str) -> (r: Vec<TheoremSig>)
    ensures
        sigs_view(r@) == isa_decls_from(src@, 0),
{
    let s = chars_of(src);
    let n = s.len();
    let mut out: Vec<TheoremSig> = Vec::new();
    let mut i: usize = 0;
    assert(sigs_view(out@) + isa_decls_from(s@, 0) =~= isa_decls_from(s@, 0));
    while i < n
        invariant
            i <= n == s@.len(),
            s@ == src@,
            sigs_view(out@) + isa_decls_from(s@, i as int) == isa_decls_from(s@, 0),
        decreases n - i,
    {
        let ghost o0 = sigs_view(out@);
        if s[i] == '(' && i + 1 < n && s[i + 1] == '*' {
            i = comment_end(&s, i + 2);
            continue;
        }
        if s[i] == '"' {
            i = quote_end(&s, i + 1);
            continue;
        }
        if i == 0 || !is_word(s[i - 1]) {
            let t = chars_of("theorem");
            let l = chars_of("lemma");
            let mut hit: Option<(TheoremSig, usize)> = None;
            if word_at_exec(&s, i, &t) {
                hit = isa_decl(&s, "theorem", i + t.len());
            }
            if hit.is_none() && word_at_exec(&s, i, &l) {
                hit = isa_decl(&s, "lemma", i + l.len());
            }
            assert(hit matches Some((sig, e)) ==> isa_hit(s@, i as int) == Some((sig@, e as int)));
            assert(hit is None ==> isa_hit(s@, i as int) is None);
            if let Some((sig, e)) = hit {
                let ghost sv = sig@;
                out.push(sig);
                assert(sigs_view(out@) =~= o0.push(sv));
                if e >= n {
                    assert(o0.push(sv) + isa_decls_from(s@, n as int) =~= o0 + isa_decls_from(s@, i as int));
                    i = n;
                } else {
                    assert(o0.push(sv) + isa_decls_from(s@, e + 1) =~= o0 + isa_decls_from(s@, i as int));
                    i = e + 1;
                }
                continue;
            }
        }
        i = i + 1;
    }
    assert(sigs_view(out@) + Seq::<SSig>::empty() =~= sigs_view(out@));
    out
}

/// What the Isabelle check reports: the first quoted canonical declaration
/// compared with the submitted ones, as for Lean.
pub open spec fn isabelle_spec(canonical: Seq<char>, submitted: Seq<char>) -> SPreservation {
    compare_sigs(isa_decls_from(canonical, 0), isa_decls_from(submitted, 0), true)
}

/// Isabelle preservation: the quoted proposition of the canonical
/// declaration must match the submitted one of the same name.
fn check_isabelle_signature(canonical_statement: &str, submitted_code: &str) -> (r: PreservationReport)
    ensures
        report_wf(r),
        preservation_view(r) == isabelle_spec(canonical_statement@, submitted_code@),
{
    let cs = parse_all_isabelle_decls(canonical_statement);
    let ss = parse_all_isabelle_decls(submitted_code);
    compare_decls(&cs, &ss, true)
}

// ===========================================================================
// Agda
// ===========================================================================

/// The characters of an Agda type region from `i` at bracket depth `depth`,
/// before whitespace normalization: the type runs to the first depth-0 line
/// break not followed by an indented continuation (which contributes a
/// space), or to a depth-0 lone `=` (not part of `==`, `=>`, `<=`, `>=`,
/// `:=`, `!=`).
pub open spec fn agda_region_from(r: Seq<char>, i: int, depth: nat) -> Seq<char>
    decreases r.len() - i,
{
    if i < 0 || i >= r.len() {
        Seq::empty()
    } else {
        let c = r[i];
        if opener(c) {
            seq![c] + agda_region_from(r, i + 1, depth + 1)
        } else if closer(c) {
            seq![c] + agda_region_from(r, i + 1, if depth > 0 { (depth - 1) as nat } else { 0 })
        } else if c == '\n' && depth == 0 {
            if i + 1 < r.len() && (r[i + 1] == ' ' || r[i + 1] == '\t') {
                seq![' '] + agda_region_from(r, i + 1, depth)
            } else {
                Seq::empty()
            }
        } else if c == '=' && depth == 0 && !(
            (i > 0 && (r[i - 1] == '=' || r[i - 1] == '<' || r[i - 1] == '>' || r[i - 1] == ':' || r[i - 1] == '!'))
            || (i + 1 < r.len() && (r[i + 1] == '=' || r[i + 1] == '>'))) {
            Seq::empty()
        } else {
            seq![c] + agda_region_from(r, i + 1, depth)
        }
    }
}

/// The whitespace-normalized Agda type at the start of `r`.
pub open spec fn agda_type_spec(r: Seq<char>) -> Seq<char> {
    normalize_ws_spec(agda_region_from(r, 0, 0))
}

/// The entry name and type of a comment-stripped canonical Agda statement
/// `name : Type`.
pub open spec fn agda_decl_spec(st: Seq<char>) -> Option<(Seq<char>, Seq<char>)> {
    match statement_colon_from(st, 0, 0) {
        None => None,
        Some(c) => {
            let ws = words(st.take(c));
            let ty = agda_type_spec(st.skip(c + 1));
            if ws.len() == 0 || ty.len() == 0 { None } else { Some((ws[0], ty)) }
        },
    }
}

/// Where a run of spaces and tabs starting at `j` ends.
pub open spec fn blank_end(s: Seq<char>, j: int) -> int
    decreases s.len() - j,
{
    if 0 <= j < s.len() && (s[j] == ' ' || s[j] == '\t') { blank_end(s, j + 1) } else { j }
}

/// The type the comment-stripped `s` declares for entry `n`, searching from
/// `i`: the first whole-word `n` followed (spaces and tabs only) by a `:`
/// ascription with a non-empty type.
pub open spec fn agda_find_from(s: Seq<char>, n: Seq<char>, i: int) -> Option<Seq<char>>
    decreases s.len() - i,
{
    if n.len() == 0 || i < 0 || i + n.len() > s.len() {
        None
    } else if word_hit(s, i, n) {
        let j = blank_end(s, i + n.len());
        if j < s.len() && s[j] == ':' && !(j + 1 < s.len() && s[j + 1] == '=') && agda_type_spec(s.skip(j + 1)).len() > 0 {
            Some(agda_type_spec(s.skip(j + 1)))
        } else {
            agda_find_from(s, n, i + 1)
        }
    } else {
        agda_find_from(s, n, i + 1)
    }
}

/// The finding of an unparsable canonical Agda statement.
pub open spec fn agda_unparsable_msg() -> Seq<char> {
    "Agda canonical statement did not parse into a `name : Type` signature (falling back to the lexical mention check)"@
}

/// The finding of an Agda entry without a type signature.
pub open spec fn agda_missing_msg(name: Seq<char>) -> Seq<char> {
    "Agda entry `"@ + name + "` has no `"@ + name
        + " : …` type signature in the submission (falling back to the lexical mention check)"@
}

/// The finding of an Agda entry declared with another type.
pub open spec fn agda_changed_msg(name: Seq<char>, st: Seq<char>, ct: Seq<char>) -> Seq<char> {
    "altered Agda type: entry `"@ + name + "` is declared with type `"@ + st
        + "` but the canonical statement's type is `"@ + ct + "` — a proof of a DIFFERENT proposition"@
}

/// What the Agda check reports.
pub open spec fn agda_spec(canonical: Seq<char>, submitted: Seq<char>) -> SPreservation {
    match agda_decl_spec(strip_all_spec(canonical)) {
        None => SPreservation {
            verdict: PreservationVerdict::CanonicalUnparsable,
            findings: seq![agda_unparsable_msg()],
            canonical: None,
            submitted: None,
        },
        Some((name, ct)) => match agda_find_from(strip_all_spec(submitted), name, 0) {
            None => SPreservation {
                verdict: PreservationVerdict::SubmittedMissing,
                findings: seq![agda_missing_msg(name)],
                canonical: Some(entry_sig("agda"@, name, ct)),
                submitted: None,
            },
            Some(st) => if normalize_ws_spec(ct) == normalize_ws_spec(st) {
                SPreservation {
                    verdict: PreservationVerdict::Preserved,
                    findings: Seq::empty(),
                    canonical: Some(entry_sig("agda"@, name, ct)),
                    submitted: Some(entry_sig("agda"@, name, st)),
                }
            } else {
                SPreservation {
                    verdict: PreservationVerdict::ConclusionChanged,
                    findings: seq![agda_changed_msg(name, normalize_ws_spec(st), normalize_ws_spec(ct))],
                    canonical: Some(entry_sig("agda"@, name, ct)),
                    submitted: Some(entry_sig("agda"@, name, st)),
                }
            },
        },
    }
}

/// [`agda_type_spec`] of `r`.
fn agda_type_region(r: &Vec<char>) -> (out: Vec<char>)
    ensures
        out@ == agda_type_spec(r@),
{
    let n = r.len();
    let mut acc: Vec<char> = Vec::new();
    let mut depth: usize = 0;
    let mut i: usize = 0;
    let mut stop = false;
    while i < n && !stop
        invariant
            i <= n == r@.len(),
            depth <= i,
            stop ==> agda_region_from(r@, i as int, depth as nat) == Seq::<char>::empty(),
            acc@ + agda_region_from(r@, i as int, depth as nat) == agda_region_from(r@, 0, 0),
        decreases n - i + (if stop { 0int } else { 1int }),
    {
        let c = r[i];
        let ghost a0 = acc@;
        if c == '(' || c == '[' || c == '{' || c == '⟨' || c == '⦃' {
            acc.push(c);
            assert(a0.push(c) + agda_region_from(r@, i + 1, (depth + 1) as nat) =~= a0 + agda_region_from(r@, i as int, depth as nat));
            depth = depth + 1;
            i = i + 1;
        } else if c == ')' || c == ']' || c == '}' || c == '⟩' || c == '⦄' {
            let nd: usize = if depth > 0 { depth - 1 } else { 0 };
            acc.push(c);
            assert(a0.push(c) + agda_region_from(r@, i + 1, nd as nat) =~= a0 + agda_region_from(r@, i as int, depth as nat));
            depth = nd;
            i = i + 1;
        } else if c == '\n' && depth == 0 {
            if i + 1 < n && (r[i + 1] == ' ' || r[i + 1] == '\t') {
                acc.push(' ');
                assert(a0.push(' ') + agda_region_from(r@, i + 1, depth as nat) =~= a0 + agda_region_from(r@, i as int, depth as nat));
                i = i + 1;
            } else {
                stop = true;
            }
        } else if c == '=' && depth == 0 && !(
            (i > 0 && (r[i - 1] == '=' || r[i - 1] == '<' || r[i - 1] == '>' || r[i - 1] == ':' || r[i - 1] == '!'))
            || (i + 1 < n && (r[i + 1] == '=' || r[i + 1] == '>'))) {
            stop = true;
        } else {
            acc.push(c);
            assert(a0.push(c) + agda_region_from(r@, i + 1, depth as nat) =~= a0 + agda_region_from(r@, i as int, depth as nat));
            i = i + 1;
        }
    }
    assert(acc@ =~= agda_region_from(r@, 0, 0));
    assert(acc@.subrange(0, acc@.len() as int) == acc@);
    normalize_ws(&acc, 0, acc.len())
}

/// The suffix `s[lo..]` as its own vector.
pub(crate) fn suffix(s: &Vec<char>, lo: usize) -> (r: Vec<char>)
    requires
        lo <= s@.len(),
    ensures
        r@ == s@.skip(lo as int),
{
    let mut r: Vec<char> = Vec::new();
    crate::text::extend_chars(&mut r, s, lo, s.len());
    assert(r@ =~= s@.skip(lo as int));
    r
}

/// [`agda_decl_spec`] computed.
fn parse_agda_decl(st: &Vec<char>) -> (r: Option<(Vec<char>, Vec<char>)>)
    ensures
        match r {
            Some((n, t)) => agda_decl_spec(st@) == Some((n@, t@)),
            None => agda_decl_spec(st@) is None,
        },
{
    match statement_colon(st, 0, st.len()) {
        None => {
            assert(st@.subrange(0, st@.len() as int) == st@);
            None
        },
        Some(c) => {
            assert(st@.subrange(0, st@.len() as int) == st@);
            let ws = crate::text::words_of(st, 0, c);
            assert(st@.subrange(0, c as int) == st@.take(c as int));
            let rest = suffix(st, c + 1);
            let ty = agda_type_region(&rest);
            if ws.len() == 0 || ty.len() == 0 {
                return None;
            }
            assert(words_view(ws@)[0] == ws@[0]@);
            Some((ws[0].clone(), ty))
        },
    }
}

/// Where a run of spaces and tabs starting at `j` ends.
fn blank_end_exec(s: &Vec<char>, j: usize) -> (r: usize)
    requires
        j <= s@.len(),
    ensures
        r as int == blank_end(s@, j as int),
        j <= r <= s@.len(),
{
    let mut k = j;
    while k < s.len() && (s[k] == ' ' || s[k] == '\t')
        invariant
            j <= k <= s@.len(),
            blank_end(s@, j as int) == blank_end(s@, k as int),
        decreases s@.len() - k,
    {
        k = k + 1;
    }
    k
}

/// [`agda_find_from`] computed from 0.
fn find_agda_type(s: &Vec<char>, n: &Vec<char>) -> (r: Option<Vec<char>>)
    ensures
        match r {
            Some(t) => agda_find_from(s@, n@, 0) == Some(t@),
            None => agda_find_from(s@, n@, 0) is None,
        },
{
    let len = s.len();
    if n.len() == 0 || n.len() > len {
        return None;
    }
    let mut i: usize = 0;
    while i <= len - n.len()
        invariant
            n@.len() > 0,
            i <= len == s@.len(),
            n@.len() <= len,
            agda_find_from(s@, n@, 0) == agda_find_from(s@, n@, i as int),
        decreases len - i,
    {
        if word_hit_exec(s, i, n) {
            let j = blank_end_exec(s, i + n.len());
            if j < len && s[j] == ':' && !(j + 1 < len && s[j + 1] == '=') {
                let rest = suffix(s, j + 1);
                let ty = agda_type_region(&rest);
                if ty.len() > 0 {
                    return Some(ty);
                }
            }
        }
        i = i + 1;
    }
    None
}

/// Agda preservation: the canonical entry's type must match the type the
/// submission declares for the same entry.
fn check_agda_signature(canonical_statement: &str, submitted_code: &str) -> (r: PreservationReport)
    ensures
        report_wf(r),
        preservation_view(r) == agda_spec(canonical_statement@, submitted_code@),
{
    let cst = strip_comments(canonical_statement);
    let cv = chars_of(cst.as_str());
    match parse_agda_decl(&cv) {
        None => {
            let m = owned("Agda canonical statement did not parse into a `name : Type` signature (falling back to the lexical mention check)");
            make_report(PreservationVerdict::CanonicalUnparsable, one(m), None, None)
        },
        Some((name, ct)) => {
            let name_s = string_of(&name);
            let ct_s = string_of(&ct);
            let canon = TheoremSig {
                kind: owned("agda"),
                name: name_s.clone(),
                binders: String::new(),
                conclusion: norm_string(ct_s.as_str()),
            };
            let sst = strip_comments(submitted_code);
            let sv = chars_of(sst.as_str());
            match find_agda_type(&sv, &name) {
                None => {
                    let mut m = owned("Agda entry `");
                    m.append(name_s.as_str());
                    m.append("` has no `");
                    m.append(name_s.as_str());
                    m.append(" : …` type signature in the submission (falling back to the lexical mention check)");
                    make_report(PreservationVerdict::SubmittedMissing, one(m), Some(canon), None)
                },
                Some(st) => {
                    let st_s = string_of(&st);
                    let sub = TheoremSig {
                        kind: owned("agda"),
                        name: name_s.clone(),
                        binders: String::new(),
                        conclusion: norm_string(st_s.as_str()),
                    };
                    let nc = norm_string(ct_s.as_str());
                    let ns = norm_string(st_s.as_str());
                    if crate::text::str_eq(nc.as_str(), ns.as_str()) {
                        let v: Vec<String> = Vec::new();
                        assert(v@.map_values(|f: String| f@) =~= Seq::<Seq<char>>::empty());
                        make_report(PreservationVerdict::Preserved, v, Some(canon), Some(sub))
                    } else {
                        let mut m = owned("altered Agda type: entry `");
                        m.append(name_s.as_str());
                        m.append("` is declared with type `");
                        m.append(ns.as_str());
                        m.append("` but the canonical statement's type is `");
                        m.append(nc.as_str());
                        m.append("` — a proof of a DIFFERENT proposition");
                        make_report(PreservationVerdict::ConclusionChanged, one(m), Some(canon), Some(sub))
                    }
                },
            }
        },
    }
}

// ===========================================================================
// Metamath
// ===========================================================================

/// The assertion symbols of `toks[k..]`, up to `$=` or `$.`.
pub open spec fn mm_symbols(toks: Seq<Seq<char>>, k: int) -> Seq<Seq<char>>
    decreases toks.len() - k,
{
    if k < 0 || k >= toks.len() || toks[k] == "$="@ || toks[k] == "$."@ {
        Seq::empty()
    } else {
        seq![toks[k]] + mm_symbols(toks, k + 1)
    }
}

/// The first labelled `$p` / `$a` assertion with symbols in `toks` from `k`
/// (the label is the token before and does not start with `$`).
pub open spec fn mm_assertion_from(toks: Seq<Seq<char>>, k: int) -> Option<(Seq<char>, Seq<Seq<char>>)>
    decreases toks.len() - k,
{
    if k < 1 || k >= toks.len() {
        None
    } else if (toks[k] == "$p"@ || toks[k] == "$a"@) && !(toks[k - 1].len() > 0 && toks[k - 1][0] == '$')
        && toks[k - 1].len() > 0 && mm_symbols(toks, k + 1).len() > 0 {
        Some((toks[k - 1], mm_symbols(toks, k + 1)))
    } else {
        mm_assertion_from(toks, k + 1)
    }
}

/// The symbols the first `$p` labelled `label` in `toks` from `k` asserts.
pub open spec fn mm_find_from(toks: Seq<Seq<char>>, label: Seq<char>, k: int) -> Option<Seq<Seq<char>>>
    decreases toks.len() - k,
{
    if k < 1 || k >= toks.len() {
        None
    } else if toks[k] == "$p"@ && toks[k - 1] == label && mm_symbols(toks, k + 1).len() > 0 {
        Some(mm_symbols(toks, k + 1))
    } else {
        mm_find_from(toks, label, k + 1)
    }
}

/// The finding of an unparsable canonical Metamath statement.
pub open spec fn mm_unparsable_msg() -> Seq<char> {
    "Metamath canonical statement did not parse into a `label $p/$a … ` assertion (falling back to the lexical mention check)"@
}

/// The finding of a label the submission does not assert.
pub open spec fn mm_missing_msg(label: Seq<char>) -> Seq<char> {
    "Metamath label `"@ + label + "` is not asserted by a `$p` in the submission (falling back to the lexical mention check)"@
}

/// The finding of a label asserting another statement.
pub open spec fn mm_changed_msg(label: Seq<char>, sub: Seq<char>, canon: Seq<char>) -> Seq<char> {
    "altered Metamath assertion: `$p "@ + label + "` asserts `"@ + sub + "` but the canonical statement asserts `"@
        + canon + "` — a proof of a DIFFERENT statement"@
}

/// What the Metamath check reports.
pub open spec fn metamath_spec(canonical: Seq<char>, submitted: Seq<char>) -> SPreservation {
    match mm_assertion_from(words(strip_all_spec(canonical)), 1) {
        None => SPreservation {
            verdict: PreservationVerdict::CanonicalUnparsable,
            findings: seq![mm_unparsable_msg()],
            canonical: None,
            submitted: None,
        },
        Some((label, cs)) => {
            let cj = join(cs, seq![' ']);
            match mm_find_from(words(strip_all_spec(submitted)), label, 1) {
                None => SPreservation {
                    verdict: PreservationVerdict::SubmittedMissing,
                    findings: seq![mm_missing_msg(label)],
                    canonical: Some(entry_sig("metamath"@, label, cj)),
                    submitted: None,
                },
                Some(ss) => {
                    let sj = join(ss, seq![' ']);
                    if cs == ss {
                        SPreservation {
                            verdict: PreservationVerdict::Preserved,
                            findings: Seq::empty(),
                            canonical: Some(entry_sig("metamath"@, label, cj)),
                            submitted: Some(entry_sig("metamath"@, label, sj)),
                        }
                    } else {
                        SPreservation {
                            verdict: PreservationVerdict::ConclusionChanged,
                            findings: seq![mm_changed_msg(label, sj, cj)],
                            canonical: Some(entry_sig("metamath"@, label, cj)),
                            submitted: Some(entry_sig("metamath"@, label, sj)),
                        }
                    }
                },
            }
        },
    }
}

/// [`mm_symbols`] computed.
fn metamath_symbols(toks: &Vec<Vec<char>>, k: usize) -> (r: Vec<Vec<char>>)
    requires
        k <= toks@.len(),
    ensures
        words_view(r@) == mm_symbols(words_view(toks@), k as int),
{
    let ghost tv = words_view(toks@);
    let eq = chars_of("$=");
    let dot = chars_of("$.");
    let mut out: Vec<Vec<char>> = Vec::new();
    let mut i: usize = k;
    assert(words_view(out@) + mm_symbols(tv, k as int) =~= mm_symbols(tv, k as int));
    while i < toks.len() && !chars_eq(&toks[i], &eq) && !chars_eq(&toks[i], &dot)
        invariant
            k <= i <= toks@.len(),
            tv == words_view(toks@),
            eq@ == "$="@,
            dot@ == "$."@,
            words_view(out@) + mm_symbols(tv, i as int) == mm_symbols(tv, k as int),
        decreases toks@.len() - i,
    {
        assert(tv[i as int] == toks@[i as int]@);
        let ghost o0 = words_view(out@);
        out.push(toks[i].clone());
        assert(words_view(out@) =~= o0.push(tv[i as int]));
        assert(o0.push(tv[i as int]) + mm_symbols(tv, i + 1) =~= o0 + mm_symbols(tv, i as int));
        i = i + 1;
    }
    proof {
        if i < toks@.len() {
            assert(tv[i as int] == toks@[i as int]@);
        }
    }
    assert(words_view(out@) + Seq::<Seq<char>>::empty() =~= words_view(out@));
    out
}

/// Whether `v` spells `t`.
pub(crate) fn spells(v: &Vec<char>, t: &str) -> (r: bool)
    ensures
        r == (v@ == t@),
{
    let w = chars_of(t);
    chars_eq(v, &w)
}

/// [`mm_assertion_from`] computed from 1.
fn parse_metamath_assertion(toks: &Vec<Vec<char>>) -> (r: Option<(Vec<char>, Vec<Vec<char>>)>)
    ensures
        match r {
            Some((l, ss)) => mm_assertion_from(words_view(toks@), 1) == Some((l@, words_view(ss@))),
            None => mm_assertion_from(words_view(toks@), 1) is None,
        },
{
    let ghost tv = words_view(toks@);
    let mut k: usize = 1;
    while k < toks.len()
        invariant
            1 <= k,
            tv == words_view(toks@),
            mm_assertion_from(tv, 1) == mm_assertion_from(tv, k as int),
        decreases toks@.len() - k,
    {
        assert(tv[k as int] == toks@[k as int]@);
        assert(tv[k - 1] == toks@[k - 1]@);
        if spells(&toks[k], "$p") || spells(&toks[k], "$a") {
            let label = &toks[k - 1];
            let dollar = label.len() > 0 && label[0] == '$';
            if !dollar {
                let syms = metamath_symbols(toks, k + 1);
                if label.len() > 0 && syms.len() > 0 {
                    assert(words_view(syms@).len() == syms@.len());
                    return Some((label.clone(), syms));
                }
                assert(words_view(syms@).len() == syms@.len());
            }
        }
        k = k + 1;
    }
    None
}

/// [`mm_find_from`] computed from 1.
fn find_metamath_assertion(toks: &Vec<Vec<char>>, label: &Vec<char>) -> (r: Option<Vec<Vec<char>>>)
    ensures
        match r {
            Some(ss) => mm_find_from(words_view(toks@), label@, 1) == Some(words_view(ss@)),
            None => mm_find_from(words_view(toks@), label@, 1) is None,
        },
{
    let ghost tv = words_view(toks@);
    let mut k: usize = 1;
    while k < toks.len()
        invariant
            1 <= k,
            tv == words_view(toks@),
            mm_find_from(tv, label@, 1) == mm_find_from(tv, label@, k as int),
        decreases toks@.len() - k,
    {
        assert(tv[k as int] == toks@[k as int]@);
        assert(tv[k - 1] == toks@[k - 1]@);
        if spells(&toks[k], "$p") && chars_eq(&toks[k - 1], label) {
            let syms = metamath_symbols(toks, k + 1);
            assert(words_view(syms@).len() == syms@.len());
            if syms.len() > 0 {
                return Some(syms);
            }
        }
        k = k + 1;
    }
    None
}

/// The words of `ws` joined by single spaces.
pub(crate) fn join_words(ws: &Vec<Vec<char>>) -> (r: String)
    ensures
        r@ == join(words_view(ws@), seq![' ']),
{
    let ghost wv = words_view(ws@);
    let mut out = String::new();
    let mut i: usize = 0;
    while i < ws.len()
        invariant
            i <= ws@.len(),
            wv == words_view(ws@),
            out@ == join(wv.take(i as int), seq![' ']),
        decreases ws@.len() - i,
    {
        proof {
            lemma_join_push(wv.take(i as int), seq![' '], wv[i as int]);
            assert(wv.take(i + 1) == wv.take(i as int).push(wv[i as int]));
            assert(wv[i as int] == ws@[i as int]@);
        }
        if i > 0 {
            push_char(&mut out, ' ');
        }
        crate::text::push_range(&mut out, &ws[i], 0, ws[i].len());
        assert(ws@[i as int]@.subrange(0, ws@[i as int]@.len() as int) == ws@[i as int]@);
        i = i + 1;
    }
    assert(wv.take(ws@.len() as int) == wv);
    out
}

/// Whether two word lists are equal.
fn words_eq(a: &Vec<Vec<char>>, b: &Vec<Vec<char>>) -> (r: bool)
    ensures
        r == (words_view(a@) == words_view(b@)),
{
    if a.len() != b.len() {
        assert(words_view(a@).len() != words_view(b@).len());
        return false;
    }
    let mut i: usize = 0;
    while i < a.len()
        invariant
            i <= a@.len() == b@.len(),
            forall|j: int| 0 <= j < i ==> words_view(a@)[j] == words_view(b@)[j],
        decreases a@.len() - i,
    {
        if !chars_eq(&a[i], &b[i]) {
            assert(words_view(a@)[i as int] != words_view(b@)[i as int]);
            return false;
        }
        i = i + 1;
    }
    assert(words_view(a@) =~= words_view(b@));
    true
}

/// Metamath preservation: the submission's `$p` for the canonical label
/// must assert the same symbol sequence.
fn check_metamath_signature(canonical_statement: &str, submitted_code: &str) -> (r: PreservationReport)
    ensures
        report_wf(r),
        preservation_view(r) == metamath_spec(canonical_statement@, submitted_code@),
{
    let cst = strip_comments(canonical_statement);
    let cv = chars_of(cst.as_str());
    let ctoks = crate::text::words_of(&cv, 0, cv.len());
    assert(cv@.subrange(0, cv@.len() as int) == cv@);
    match parse_metamath_assertion(&ctoks) {
        None => {
            let m = owned("Metamath canonical statement did not parse into a `label $p/$a … ` assertion (falling back to the lexical mention check)");
            make_report(PreservationVerdict::CanonicalUnparsable, one(m), None, None)
        },
        Some((label, cs)) => {
            let label_s = string_of(&label);
            let cj = join_words(&cs);
            let canon = TheoremSig {
                kind: owned("metamath"),
                name: label_s.clone(),
                binders: String::new(),
                conclusion: norm_string(cj.as_str()),
            };
            let sst = strip_comments(submitted_code);
            let sv = chars_of(sst.as_str());
            let stoks = crate::text::words_of(&sv, 0, sv.len());
            assert(sv@.subrange(0, sv@.len() as int) == sv@);
            match find_metamath_assertion(&stoks, &label) {
                None => {
                    let mut m = owned("Metamath label `");
                    m.append(label_s.as_str());
                    m.append("` is not asserted by a `$p` in the submission (falling back to the lexical mention check)");
                    make_report(PreservationVerdict::SubmittedMissing, one(m), Some(canon), None)
                },
                Some(ss) => {
                    let sj = join_words(&ss);
                    let sub = TheoremSig {
                        kind: owned("metamath"),
                        name: label_s.clone(),
                        binders: String::new(),
                        conclusion: norm_string(sj.as_str()),
                    };
                    if words_eq(&cs, &ss) {
                        let v: Vec<String> = Vec::new();
                        assert(v@.map_values(|f: String| f@) =~= Seq::<Seq<char>>::empty());
                        make_report(PreservationVerdict::Preserved, v, Some(canon), Some(sub))
                    } else {
                        let mut m = owned("altered Metamath assertion: `$p ");
                        m.append(label_s.as_str());
                        m.append("` asserts `");
                        m.append(sj.as_str());
                        m.append("` but the canonical statement asserts `");
                        m.append(cj.as_str());
                        m.append("` — a proof of a DIFFERENT statement");
                        make_report(PreservationVerdict::ConclusionChanged, one(m), Some(canon), Some(sub))
                    }
                },
            }
        },
    }
}

// ===========================================================================
// Per-system dispatch
// ===========================================================================

/// What [`check_entry_signature`] reports for each system.
pub open spec fn entry_spec(system: FormalSystem, canonical: Seq<char>, submitted: Seq<char>) -> SPreservation {
    match system {
        FormalSystem::Agda => agda_spec(canonical, submitted),
        FormalSystem::Metamath => metamath_spec(canonical, submitted),
        FormalSystem::Isabelle => isabelle_spec(canonical, submitted),
        _ => preservation_spec(canonical, submitted),
    }
}

/// Per-system statement-signature preservation: Lean, Rocq and Candle use
/// the theorem-signature check; Isabelle compares quoted propositions; Agda
/// compares the entry's type; Metamath compares the `$p` symbol sequence.
/// Where the canonical statement or the submitted entry cannot be parsed the
/// verdict is `CanonicalUnparsable` / `SubmittedMissing`, never a change.
pub fn check_entry_signature(system: FormalSystem, canonical_statement: &str, submitted_code: &str) -> (r: PreservationReport)
    ensures
        report_wf(r),
        preservation_view(r) == entry_spec(system, canonical_statement@, submitted_code@),
{
    match system {
        FormalSystem::Agda => check_agda_signature(canonical_statement, submitted_code),
        FormalSystem::Metamath => check_metamath_signature(canonical_statement, submitted_code),
        FormalSystem::Isabelle => check_isabelle_signature(canonical_statement, submitted_code),
        FormalSystem::Lean | FormalSystem::Rocq | FormalSystem::Candle => check_statement_preserved(
            canonical_statement,
            submitted_code,
        ),
    }
}

// ===========================================================================
// Laws
// ===========================================================================

/// A statement checked against itself is preserved: once the canonical
/// statement parses, its own text is an exact match.
pub proof fn lemma_statement_self_preserved(src: Seq<char>)
    requires
        all_sigs_spec(src).len() > 0,
    ensures
        preservation_spec(src, src).verdict == PreservationVerdict::Preserved,
        preservation_spec(src, src).findings.len() == 0,
{
    let cs = all_sigs_spec(src);
    assert(first_named(cs, cs[0].name, 0) == Some(0int));
}


proof fn lemma_decimal_digits(n: nat)
    ensures
        forall|i: int| 0 <= i < decimal(n).len() ==> crate::text::is_digit(#[trigger] decimal(n)[i]),
        decimal(n).len() >= 1,
    decreases n,
{
    if n >= 10 {
        lemma_decimal_digits(n / 10);
        let d = decimal(n / 10);
        assert forall|i: int| 0 <= i < decimal(n).len() implies crate::text::is_digit(#[trigger] decimal(n)[i]) by {
            if i < d.len() {
                assert(decimal(n)[i] == d[i]);
            }
        }
    }
}

proof fn lemma_digit_char_injective(a: nat, b: nat)
    requires
        a < 10,
        b < 10,
        digit_char(a) == digit_char(b),
    ensures
        a == b,
{
}

proof fn lemma_decimal_injective(a: nat, b: nat)
    requires
        decimal(a) == decimal(b),
    ensures
        a == b,
    decreases a,
{
    lemma_decimal_digits(a);
    lemma_decimal_digits(b);
    if a < 10 && b < 10 {
        assert(decimal(a)[0] == digit_char(a));
        assert(decimal(b)[0] == digit_char(b));
        lemma_digit_char_injective(a, b);
    } else if a >= 10 && b >= 10 {
        lemma_decimal_digits(a / 10);
        lemma_decimal_digits(b / 10);
        assert(decimal(a).drop_last() == decimal(a / 10));
        assert(decimal(b).drop_last() == decimal(b / 10));
        lemma_decimal_injective(a / 10, b / 10);
        assert(decimal(a).last() == digit_char(a % 10));
        assert(decimal(b).last() == digit_char(b % 10));
        lemma_digit_char_injective(a % 10, b % 10);
    } else if a >= 10 {
        lemma_decimal_digits(a / 10);
        assert(decimal(a).len() >= 2);
    } else {
        lemma_decimal_digits(b / 10);
        assert(decimal(b).len() >= 2);
    }
}

/// Distinct positions get distinct positional tokens.
pub proof fn lemma_var_tokens_distinct(i: nat, j: nat)
    ensures
        i != j ==> var_token(i) != var_token(j),
{
    if var_token(i) == var_token(j) {
        assert(decimal(i) =~= var_token(i).drop_first());
        assert(decimal(j) =~= var_token(j).drop_first());
        lemma_decimal_injective(i, j);
    }
}

proof fn lemma_replace_no_hit(c: Seq<char>, n: Seq<char>, r: Seq<char>, i: int)
    requires
        0 <= i <= c.len(),
        forall|p: int| i <= p < c.len() ==> !#[trigger] word_hit(c, p, n),
    ensures
        replace_word_from(c, n, r, i) == c.skip(i),
    decreases c.len() - i,
{
    if i < c.len() {
        lemma_replace_no_hit(c, n, r, i + 1);
        assert(c.skip(i) =~= seq![c[i]] + c.skip(i + 1));
    } else {
        assert(c.skip(i) =~= Seq::<char>::empty());
    }
}

/// What a well-formed list of bound variables is: distinct, non-empty
/// words of word characters, none holding `#` nor starting with a digit.
pub open spec fn plain_vars(vars: Seq<Seq<char>>) -> bool {
    &&& vars.no_duplicates()
    &&& forall|k: int| 0 <= k < vars.len() ==> (#[trigger] vars[k]).len() > 0
    &&& forall|k: int, q: int| 0 <= k < vars.len() && 0 <= q < vars[k].len() ==> is_word_char(#[trigger] vars[k][q])
        && vars[k][q] != '#'
    &&& forall|k: int| 0 <= k < vars.len() ==> !crate::text::is_digit((#[trigger] vars[k])[0])
}

proof fn lemma_fold_single(vars: Seq<Seq<char>>, j: int, k: int)
    requires
        plain_vars(vars),
        0 <= j < vars.len(),
        0 <= k <= vars.len(),
    ensures
        alpha_fold(vars[j], vars, k) == if k <= j { vars[j] } else { var_token(j as nat) },
    decreases k,
{
    if k > 0 {
        lemma_fold_single(vars, j, k - 1);
        let prev = alpha_fold(vars[j], vars, k - 1);
        let n = vars[k - 1];
        assert(n.len() > 0);
        if k - 1 < j {
            let c = vars[j];
            assert(c != n);
            assert forall|p: int| 0 <= p < c.len() implies !#[trigger] word_hit(c, p, n) by {
                if word_hit(c, p, n) {
                    if p > 0 {
                        assert(is_word_char(c[p - 1]));
                    }
                    if p + n.len() < c.len() {
                        assert(is_word_char(c[p + n.len()]));
                    }
                    assert(c.subrange(0, c.len() as int) == c);
                }
            }
            lemma_replace_no_hit(c, n, var_token((k - 1) as nat), 0);
            assert(c.skip(0) == c);
        } else if k - 1 == j {
            let tok = var_token(j as nat);
            assert(word_hit(n, 0, n)) by {
                assert(n.subrange(0, n.len() as int) == n);
            }
            lemma_replace_no_hit(n, n, tok, n.len() as int);
            assert(n.skip(n.len() as int) =~= Seq::<char>::empty());
            assert(replace_word_from(n, n, tok, 0) == tok + Seq::<char>::empty());
            assert(tok + Seq::<char>::empty() =~= tok);
        } else {
            let c = var_token(j as nat);
            lemma_decimal_digits(j as nat);
            assert forall|p: int| 0 <= p < c.len() implies !#[trigger] word_hit(c, p, n) by {
                if word_hit(c, p, n) {
                    assert(c.subrange(p, p + n.len())[0] == n[0]);
                    assert(n[0] == c[p]);
                    if p == 0 {
                        assert(c[0] == '#');
                    } else {
                        assert(c[p] == decimal(j as nat)[p - 1]);
                    }
                }
            }
            lemma_replace_no_hit(c, n, var_token((k - 1) as nat), 0);
            assert(c.skip(0) == c);
        }
    }
}

/// The alpha renaming is positional and one-to-one: over well-formed bound
/// variables, each variable standing alone is renamed to the token of its
/// own position, so two distinct bound variables never become the same
/// token.
pub proof fn lemma_alpha_renaming_positional(vars: Seq<Seq<char>>, i: int, j: int)
    requires
        plain_vars(vars),
        0 <= i < vars.len(),
        0 <= j < vars.len(),
    ensures
        alpha_fold(vars[j], vars, vars.len() as int) == var_token(j as nat),
        i != j ==> alpha_fold(vars[i], vars, vars.len() as int) != alpha_fold(vars[j], vars, vars.len() as int),
{
    lemma_fold_single(vars, i, vars.len() as int);
    lemma_fold_single(vars, j, vars.len() as int);
    lemma_var_tokens_distinct(i as nat, j as nat);
}
} // verus!
