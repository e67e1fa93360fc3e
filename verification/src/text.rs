//! Character-level text utilities shared by the parsers and renderers.
//!
//! Text is reasoned about as `Seq<char>` (the view of `str` and `String`).
//! Whitespace is the Unicode `White_Space` property, stated outright; the
//! other Unicode classifications the parsers need are named rather than
//! restated, and every exec helper here is proved against its spec function.
use vstd::prelude::*;

verus! {

/// Whether `c` has the Unicode `White_Space` property, which is what
/// `char::is_whitespace` answers: tab through carriage return, space, next
/// line, no-break space, the Ogham space mark, the spaces from en quad to
/// hair space, the line and paragraph separators, the narrow no-break space,
/// the medium mathematical space and the ideographic space.
pub open spec fn is_white(c: char) -> bool {
    ('\u{9}' <= c && c <= '\u{d}') || c == ' ' || c == '\u{85}' || c == '\u{a0}' || c == '\u{1680}'
        || ('\u{2000}' <= c && c <= '\u{200a}') || c == '\u{2028}' || c == '\u{2029}' || c == '\u{202f}'
        || c == '\u{205f}' || c == '\u{3000}'
}

/// What `char::is_alphanumeric` answers for `c` (Unicode `Alphabetic` or
/// `Numeric`).
pub uninterp spec fn is_alnum(c: char) -> bool;

/// Whether `c` is whitespace (see [`is_white`]).
pub fn char_is_whitespace(c: char) -> (r: bool)
    ensures
        r == is_white(c),
{
    ('\u{9}' <= c && c <= '\u{d}') || c == ' ' || c == '\u{85}' || c == '\u{a0}' || c == '\u{1680}'
        || ('\u{2000}' <= c && c <= '\u{200a}') || c == '\u{2028}' || c == '\u{2029}' || c == '\u{202f}'
        || c == '\u{205f}' || c == '\u{3000}'
}

/// Calls `char::is_alphanumeric`; the contract claims only that the answer is
/// the fixed Unicode classification of `c`, named [`is_alnum`].
#[verifier::external_body]
pub(crate) fn char_is_alphanumeric(c: char) -> (r: bool)
    ensures
        r == is_alnum(c),
{
    c.is_alphanumeric()
}

/// Whether `char::is_alphabetic` holds of `c`: a fixed Unicode property.
pub uninterp spec fn is_alpha(c: char) -> bool;

/// Calls `char::is_alphabetic`; the contract claims only that the answer is
/// the fixed Unicode classification of `c`, named [`is_alpha`].
#[verifier::external_body]
pub(crate) fn char_is_alphabetic(c: char) -> (r: bool)
    ensures
        r == is_alpha(c),
{
    c.is_alphabetic()
}

/// What `str::to_lowercase` returns for `s`: its Unicode lowercase mapping,
/// a fixed function of the characters (it may change their number).
pub uninterp spec fn lowercase(s: Seq<char>) -> Seq<char>;

/// Calls `str::to_lowercase`; the contract claims only that the result is
/// the lowercase mapping of `s`, named [`lowercase`].
#[verifier::external_body]
pub(crate) fn to_lowercase(s: &str) -> (r: String)
    ensures
        r@ == lowercase(s@),
{
    s.to_lowercase()
}

/// Calls `String::push`, which appends one character.
#[verifier::external_body]
pub(crate) fn push_char(s: &mut String, c: char)
    ensures
        final(s)@ == old(s)@.push(c),
{
    s.push(c)
}

/// Collect the characters of `s` into a vector.
pub fn chars_of(s: &str) -> (v: Vec<char>)
    ensures
        v@ == s@,
{
    let mut v: Vec<char> = Vec::new();
    for c in iter: s.chars()
        invariant
            iter.seq() == s@,
            v@ == iter.seq().take(iter.index() as int),
    {
        v.push(c);
    }
    v
}

/// Append the characters `v[lo..hi]` to `out`.
pub fn push_range(out: &mut String, v: &Vec<char>, lo: usize, hi: usize)
    requires
        lo <= hi <= v@.len(),
    ensures
        final(out)@ == old(out)@ + v@.subrange(lo as int, hi as int),
{
    let mut i: usize = lo;
    while i < hi
        invariant
            lo <= i <= hi <= v@.len(),
            out@ == old(out)@ + v@.subrange(lo as int, i as int),
        decreases hi - i,
    {
        push_char(out, v[i]);
        assert(v@.subrange(lo as int, i + 1) == v@.subrange(lo as int, i as int).push(v@[i as int]));
        i = i + 1;
    }
}

/// Append `v[lo..hi]` to the character vector `out`.
pub fn extend_chars(out: &mut Vec<char>, v: &Vec<char>, lo: usize, hi: usize)
    requires
        lo <= hi <= v@.len(),
    ensures
        final(out)@ == old(out)@ + v@.subrange(lo as int, hi as int),
{
    let mut i: usize = lo;
    while i < hi
        invariant
            lo <= i <= hi <= v@.len(),
            out@ == old(out)@ + v@.subrange(lo as int, i as int),
        decreases hi - i,
    {
        out.push(v[i]);
        assert(v@.subrange(lo as int, i + 1) == v@.subrange(lo as int, i as int).push(v@[i as int]));
        i = i + 1;
    }
}

/// A `String` holding exactly `v[lo..hi]`.
pub fn string_of_range(v: &Vec<char>, lo: usize, hi: usize) -> (s: String)
    requires
        lo <= hi <= v@.len(),
    ensures
        s@ == v@.subrange(lo as int, hi as int),
{
    let mut s = String::new();
    push_range(&mut s, v, lo, hi);
    s
}

/// A `String` holding exactly the characters of `v`.
pub fn string_of(v: &Vec<char>) -> (s: String)
    ensures
        s@ == v@,
{
    let s = string_of_range(v, 0, v.len());
    assert(v@.subrange(0, v@.len() as int) == v@);
    s
}

/// An owned copy of `s`.
pub fn owned(s: &str) -> (r: String)
    ensures
        r@ == s@,
{
    let mut r = String::new();
    r.append(s);
    r
}

/// Whether two character sequences are equal.
pub fn chars_eq(a: &Vec<char>, b: &Vec<char>) -> (r: bool)
    ensures
        r == (a@ == b@),
{
    if a.len() != b.len() {
        return false;
    }
    let mut i: usize = 0;
    while i < a.len()
        invariant
            a@.len() == b@.len(),
            0 <= i <= a@.len(),
            forall|j: int| 0 <= j < i ==> a@[j] == b@[j],
        decreases a@.len() - i,
    {
        if a[i] != b[i] {
            return false;
        }
        i = i + 1;
    }
    assert(a@ =~= b@);
    true
}

/// Whether two strings are equal, character for character.
pub fn str_eq(a: &str, b: &str) -> (r: bool)
    ensures
        r == (a@ == b@),
{
    let va = chars_of(a);
    let vb = chars_of(b);
    chars_eq(&va, &vb)
}

// ---------------------------------------------------------------------------
// Character classes and trimming
// ---------------------------------------------------------------------------

/// A set of characters to trim, with an exec membership test.
#[derive(Clone, Copy)]
pub enum CharClass {
    /// Unicode whitespace.
    White,
    /// Exactly one character.
    Only(char),
    /// Decoration around a quoted name: whitespace, backticks and quotes.
    Quoting,
    /// What ends a declared name: whitespace, `(` or `:`.
    NameEnd,
    /// Anything that cannot continue an identifier (see [`ident_char`]).
    NonIdent,
    /// Anything but an ASCII digit.
    NonDigit,
    /// Lean word characters (see [`is_word_char`]).
    Word,
    /// The characters `:` and `(`.
    ColonParen,
}

/// Characters of a Lean word: alphanumerics, `_` and `'` (not `.`, so
/// `Foo.sorry` still ends a word before `sorry`).
pub open spec fn is_word_char(c: char) -> bool {
    is_alnum(c) || c == '_' || c == '\''
}

/// ASCII digits.
pub open spec fn is_digit(c: char) -> bool {
    '0' <= c && c <= '9'
}

/// Characters that continue a Lean identifier: alphanumerics, `_`, `'`, `.`.
pub open spec fn ident_char(c: char) -> bool {
    is_alnum(c) || c == '_' || c == '\'' || c == '.'
}

/// Membership of `c` in the class `k`.
pub open spec fn in_class(k: CharClass, c: char) -> bool {
    match k {
        CharClass::White => is_white(c),
        CharClass::Only(x) => c == x,
        CharClass::Quoting => is_white(c) || c == '`' || c == '\'' || c == '"',
        CharClass::NameEnd => is_white(c) || c == '(' || c == ':',
        CharClass::NonIdent => !ident_char(c),
        CharClass::NonDigit => !is_digit(c),
        CharClass::Word => is_word_char(c),
        CharClass::ColonParen => c == ':' || c == '(',
    }
}

/// Exec membership test for [`in_class`].
pub fn class_has(k: CharClass, c: char) -> (r: bool)
    ensures
        r == in_class(k, c),
{
    match k {
        CharClass::White => char_is_whitespace(c),
        CharClass::Only(x) => c == x,
        CharClass::Quoting => char_is_whitespace(c) || c == '`' || c == '\'' || c == '"',
        CharClass::NameEnd => char_is_whitespace(c) || c == '(' || c == ':',
        CharClass::NonIdent => !(char_is_alphanumeric(c) || c == '_' || c == '\'' || c == '.'),
        CharClass::NonDigit => !('0' <= c && c <= '9'),
        CharClass::Word => char_is_alphanumeric(c) || c == '_' || c == '\'',
        CharClass::ColonParen => c == ':' || c == '(',
    }
}

/// `s` with its leading characters satisfying `p` removed.
pub open spec fn ltrim(s: Seq<char>, p: spec_fn(char) -> bool) -> Seq<char>
    decreases s.len(),
{
    if s.len() > 0 && p(s[0]) {
        ltrim(s.drop_first(), p)
    } else {
        s
    }
}

/// `s` with its trailing characters satisfying `p` removed.
pub open spec fn rtrim(s: Seq<char>, p: spec_fn(char) -> bool) -> Seq<char>
    decreases s.len(),
{
    if s.len() > 0 && p(s.last()) {
        rtrim(s.drop_last(), p)
    } else {
        s
    }
}

/// `s` with characters satisfying `p` removed from both ends.
pub open spec fn trim(s: Seq<char>, p: spec_fn(char) -> bool) -> Seq<char> {
    rtrim(ltrim(s, p), p)
}

/// The predicate of a character class.
pub open spec fn class_pred(k: CharClass) -> spec_fn(char) -> bool {
    |c: char| in_class(k, c)
}

/// Unicode whitespace as a predicate.
pub open spec fn white_pred() -> spec_fn(char) -> bool {
    |c: char| is_white(c)
}

/// Advance `lo` past leading members of `k` within the window `v[lo..hi]`.
pub fn skip_class(v: &Vec<char>, lo: usize, hi: usize, k: CharClass) -> (r: usize)
    requires
        lo <= hi <= v@.len(),
    ensures
        lo <= r <= hi,
        v@.subrange(r as int, hi as int) == ltrim(v@.subrange(lo as int, hi as int), class_pred(k)),
        forall|j: int| lo <= j < r ==> in_class(k, v@[j]),
{
    let mut i: usize = lo;
    while i < hi && class_has(k, v[i])
        invariant
            lo <= i <= hi <= v@.len(),
            ltrim(v@.subrange(lo as int, hi as int), class_pred(k)) == ltrim(
                v@.subrange(i as int, hi as int),
                class_pred(k),
            ),
            forall|j: int| lo <= j < i ==> in_class(k, v@[j]),
        decreases hi - i,
    {
        assert(v@.subrange(i as int, hi as int).drop_first() == v@.subrange(i + 1, hi as int));
        i = i + 1;
    }
    proof { r_ltrim_stop(v@.subrange(i as int, hi as int), class_pred(k)); }
    i
}

proof fn r_ltrim_stop(s: Seq<char>, p: spec_fn(char) -> bool)
    requires
        s.len() == 0 || !p(s[0]),
    ensures
        ltrim(s, p) == s,
{
}

proof fn r_rtrim_stop(s: Seq<char>, p: spec_fn(char) -> bool)
    requires
        s.len() == 0 || !p(s.last()),
    ensures
        rtrim(s, p) == s,
{
}

/// Retreat `hi` past trailing members of `k` within the window `v[lo..hi]`.
pub fn rskip_class(v: &Vec<char>, lo: usize, hi: usize, k: CharClass) -> (r: usize)
    requires
        lo <= hi <= v@.len(),
    ensures
        lo <= r <= hi,
        v@.subrange(lo as int, r as int) == rtrim(v@.subrange(lo as int, hi as int), class_pred(k)),
{
    let mut i: usize = hi;
    while i > lo && class_has(k, v[i - 1])
        invariant
            lo <= i <= hi <= v@.len(),
            rtrim(v@.subrange(lo as int, hi as int), class_pred(k)) == rtrim(
                v@.subrange(lo as int, i as int),
                class_pred(k),
            ),
        decreases i - lo,
    {
        assert(v@.subrange(lo as int, i as int).drop_last() == v@.subrange(lo as int, i - 1));
        i = i - 1;
    }
    proof { r_rtrim_stop(v@.subrange(lo as int, i as int), class_pred(k)); }
    i
}

/// Trim members of `k` from both ends of the window `v[lo..hi]`.
pub fn trim_class(v: &Vec<char>, lo: usize, hi: usize, k: CharClass) -> (r: (usize, usize))
    requires
        lo <= hi <= v@.len(),
    ensures
        lo <= r.0 <= r.1 <= hi,
        v@.subrange(r.0 as int, r.1 as int) == trim(v@.subrange(lo as int, hi as int), class_pred(k)),
{
    let a = skip_class(v, lo, hi, k);
    let b = rskip_class(v, a, hi, k);
    (a, b)
}


// ---------------------------------------------------------------------------
// Searching, lines, words
// ---------------------------------------------------------------------------

/// The first index of `s` whose character satisfies `p`, if any.
pub open spec fn first_where(s: Seq<char>, p: spec_fn(char) -> bool) -> Option<int>
    decreases s.len(),
{
    if s.len() == 0 {
        None
    } else if p(s[0]) {
        Some(0)
    } else {
        match first_where(s.drop_first(), p) {
            Some(k) => Some(k + 1),
            None => None,
        }
    }
}

/// Bounds and meaning of [`first_where`].
pub proof fn lemma_first_where(s: Seq<char>, p: spec_fn(char) -> bool)
    ensures
        match first_where(s, p) {
            Some(k) => 0 <= k < s.len() && p(s[k]) && forall|j: int| 0 <= j < k ==> !p(#[trigger] s[j]),
            None => forall|j: int| 0 <= j < s.len() ==> !p(#[trigger] s[j]),
        },
    decreases s.len(),
{
    if s.len() > 0 && !p(s[0]) {
        lemma_first_where(s.drop_first(), p);
        assert forall|j: int| 1 <= j < s.len() implies s[j] == s.drop_first()[j - 1] by {}
    }
}

/// A position characterised as in [`lemma_first_where`] is the one it returns.
pub proof fn lemma_first_where_at(s: Seq<char>, p: spec_fn(char) -> bool, k: int)
    requires
        0 <= k <= s.len(),
        k < s.len() ==> p(s[k]),
        forall|j: int| 0 <= j < k ==> !p(#[trigger] s[j]),
    ensures
        first_where(s, p) == (if k < s.len() { Some(k) } else { None::<int> }),
    decreases k,
{
    if k > 0 {
        assert forall|j: int| 0 <= j < k - 1 implies !p(#[trigger] s.drop_first()[j]) by {
            assert(s.drop_first()[j] == s[j + 1]);
        }
        lemma_first_where_at(s.drop_first(), p, k - 1);
    }
}

/// The character `c` as a predicate.
pub open spec fn is_char(c: char) -> spec_fn(char) -> bool {
    |x: char| x == c
}

/// `s` without one trailing `'\r'`.
pub open spec fn drop_cr(s: Seq<char>) -> Seq<char> {
    if s.len() > 0 && s.last() == '\r' { s.drop_last() } else { s }
}

/// The lines of `s` as `str::lines` yields them: `s` is cut at each `'\n'`, a
/// `'\r'` just before a `'\n'` is dropped, and a final `'\n'` opens no line.
pub open spec fn lines_spec(s: Seq<char>) -> Seq<Seq<char>>
    decreases s.len(),
{
    match first_where(s, is_char('\n')) {
        None => if s.len() == 0 { Seq::empty() } else { seq![s] },
        Some(k) => {
            proof { lemma_first_where(s, is_char('\n')); }
            if 0 <= k < s.len() {
                seq![drop_cr(s.take(k))] + lines_spec(s.skip(k + 1))
            } else {
                Seq::empty()
            }
        },
    }
}

/// The first index in `v[lo..hi]` holding a member of `k`, or `hi`.
pub fn find_class(v: &Vec<char>, lo: usize, hi: usize, k: CharClass) -> (r: usize)
    requires
        lo <= hi <= v@.len(),
    ensures
        lo <= r <= hi,
        first_where(v@.subrange(lo as int, hi as int), class_pred(k)) == (if r < hi {
            Some(r - lo)
        } else {
            None::<int>
        }),
        forall|j: int| lo <= j < r ==> !in_class(k, #[trigger] v@[j]),
{
    let mut i: usize = lo;
    while i < hi && !class_has(k, v[i])
        invariant
            lo <= i <= hi <= v@.len(),
            forall|j: int| lo <= j < i ==> !in_class(k, #[trigger] v@[j]),
        decreases hi - i,
    {
        i = i + 1;
    }
    proof {
        let w = v@.subrange(lo as int, hi as int);
        assert forall|j: int| 0 <= j < i - lo implies !class_pred(k)(#[trigger] w[j]) by {
            assert(w[j] == v@[lo + j]);
        }
        lemma_first_where_at(w, class_pred(k), i - lo);
    }
    i
}

/// `ws` are the lines of `v`, each as a `(start, end)` window of `v`.
#[verifier::opaque]
pub open spec fn line_windows_of(v: Seq<char>, ws: Seq<(usize, usize)>) -> bool {
    &&& ws.len() == lines_spec(v).len()
    &&& forall|i: int| 0 <= i < ws.len() ==> #[trigger] ws[i].0 <= ws[i].1 <= v.len()
        && v.subrange(ws[i].0 as int, ws[i].1 as int) == lines_spec(v)[i]
}

/// One window of [`line_windows_of`].
pub proof fn lemma_line_window(v: Seq<char>, ws: Seq<(usize, usize)>, i: int)
    requires
        line_windows_of(v, ws),
        0 <= i < ws.len(),
    ensures
        ws.len() == lines_spec(v).len(),
        ws[i].0 <= ws[i].1 <= v.len(),
        v.subrange(ws[i].0 as int, ws[i].1 as int) == lines_spec(v)[i],
{
    reveal(line_windows_of);
}

/// How many windows [`line_windows_of`] has.
pub proof fn lemma_line_windows_len(v: Seq<char>, ws: Seq<(usize, usize)>)
    requires
        line_windows_of(v, ws),
    ensures
        ws.len() == lines_spec(v).len(),
{
    reveal(line_windows_of);
}

/// The lines of `v`, each as a `(start, end)` window of `v`.
pub fn line_windows(v: &Vec<char>) -> (r: Vec<(usize, usize)>)
    ensures
        line_windows_of(v@, r@),
        r@.len() == lines_spec(v@).len(),
        forall|i: int| 0 <= i < r@.len() ==> #[trigger] r@[i].0 <= r@[i].1 <= v@.len()
            && v@.subrange(r@[i].0 as int, r@[i].1 as int) == lines_spec(v@)[i],
{
    let n = v.len();
    let mut out: Vec<(usize, usize)> = Vec::new();
    let mut st: usize = 0;
    let ghost mut acc: Seq<Seq<char>> = Seq::empty();
    assert(v@.subrange(0, n as int) == v@);
    assert(acc + lines_spec(v@) == lines_spec(v@));
    while st < n
        invariant
            st <= n == v@.len(),
            lines_spec(v@) == acc + lines_spec(v@.subrange(st as int, n as int)),
            out@.len() == acc.len(),
            forall|i: int| 0 <= i < out@.len() ==> #[trigger] out@[i].0 <= out@[i].1 <= v@.len()
                && v@.subrange(out@[i].0 as int, out@[i].1 as int) == acc[i],
        decreases n - st,
    {
        let e = find_class(v, st, n, CharClass::Only('\n'));
        let ghost w = v@.subrange(st as int, n as int);
        assert(class_pred(CharClass::Only('\n')) == is_char('\n'));
        if e < n {
            let mut end = e;
            if e > st && v[e - 1] == '\r' {
                end = e - 1;
            }
            proof {
                assert(w.take(e - st) == v@.subrange(st as int, e as int));
                assert(drop_cr(w.take(e - st)) == v@.subrange(st as int, end as int));
                assert(w.skip(e - st + 1) == v@.subrange(e + 1, n as int));
                assert(lines_spec(w) == seq![drop_cr(w.take(e - st))] + lines_spec(w.skip(e - st + 1)));
                acc = acc.push(v@.subrange(st as int, end as int));
            }
            out.push((st, end));
            st = e + 1;
        } else {
            proof {
                assert(lines_spec(w) == seq![w]);
                acc = acc.push(w);
            }
            out.push((st, n));
            st = n;
        }
    }
    proof {
        assert(v@.subrange(n as int, n as int).len() == 0);
        assert(lines_spec(v@.subrange(n as int, n as int)) == Seq::<Seq<char>>::empty());
        assert(acc + Seq::<Seq<char>>::empty() == acc);
        reveal(line_windows_of);
    }
    out
}


/// `ltrim` keeps a suffix of its input.
pub proof fn lemma_ltrim_suffix(s: Seq<char>, p: spec_fn(char) -> bool)
    ensures
        ltrim(s, p).len() <= s.len(),
        ltrim(s, p) == s.skip(s.len() - ltrim(s, p).len()),
        ltrim(s, p).len() > 0 ==> !p(ltrim(s, p)[0]),
    decreases s.len(),
{
    if s.len() > 0 && p(s[0]) {
        lemma_ltrim_suffix(s.drop_first(), p);
        assert(s.drop_first().skip(s.drop_first().len() - ltrim(s, p).len()) == s.skip(
            s.len() - ltrim(s, p).len(),
        ));
    }
}

/// The whitespace-separated words of `s`, as `str::split_whitespace` yields
/// them.
pub open spec fn words(s: Seq<char>) -> Seq<Seq<char>>
    decreases s.len(),
{
    let t = ltrim(s, white_pred());
    if t.len() == 0 {
        Seq::empty()
    } else {
        let k = match first_where(t, white_pred()) {
            Some(k) => k,
            None => t.len() as int,
        };
        proof {
            lemma_ltrim_suffix(s, white_pred());
            lemma_first_where(t, white_pred());
        }
        if 0 < k <= t.len() {
            seq![t.take(k)] + words(t.skip(k))
        } else {
            Seq::empty()
        }
    }
}

/// `ws` joined with `sep` between neighbours.
pub open spec fn join(ws: Seq<Seq<char>>, sep: Seq<char>) -> Seq<char>
    decreases ws.len(),
{
    if ws.len() == 0 {
        Seq::empty()
    } else if ws.len() == 1 {
        ws[0]
    } else {
        join(ws.drop_last(), sep) + sep + ws.last()
    }
}

/// `s` with its whitespace runs collapsed to single spaces and its ends
/// trimmed: its words joined by `' '`.
pub open spec fn normalize_ws_spec(s: Seq<char>) -> Seq<char> {
    join(words(s), seq![' '])
}

/// Appending one more item to a join.
pub proof fn lemma_join_push(ws: Seq<Seq<char>>, sep: Seq<char>, w: Seq<char>)
    ensures
        join(ws.push(w), sep) == if ws.len() == 0 { w } else { join(ws, sep) + sep + w },
{
    assert(ws.push(w).drop_last() == ws);
}

/// The words of `v[lo..hi]` joined by single spaces.
pub fn normalize_ws(v: &Vec<char>, lo: usize, hi: usize) -> (r: Vec<char>)
    requires
        lo <= hi <= v@.len(),
    ensures
        r@ == normalize_ws_spec(v@.subrange(lo as int, hi as int)),
{
    let mut out: Vec<char> = Vec::new();
    let mut i: usize = lo;
    let ghost mut acc: Seq<Seq<char>> = Seq::empty();
    let mut any: bool = false;
    assert(acc + words(v@.subrange(lo as int, hi as int)) == words(v@.subrange(lo as int, hi as int)));
    while i < hi
        invariant
            lo <= i <= hi <= v@.len(),
            any == (acc.len() > 0),
            words(v@.subrange(lo as int, hi as int)) == acc + words(v@.subrange(i as int, hi as int)),
            out@ == join(acc, seq![' ']),
        decreases hi - i,
    {
        let ghost w = v@.subrange(i as int, hi as int);
        let a = skip_class(v, i, hi, CharClass::White);
        assert(class_pred(CharClass::White) == white_pred());
        if a == hi {
            assert(ltrim(w, white_pred()).len() == 0);
            assert(words(w) == Seq::<Seq<char>>::empty());
            i = hi;
        } else {
            let b = find_class(v, a, hi, CharClass::White);
            let ghost t = v@.subrange(a as int, hi as int);
            proof {
                assert(ltrim(w, white_pred()) == t);
                lemma_ltrim_suffix(w, white_pred());
                lemma_first_where(t, white_pred());
                assert(t[0] == v@[a as int]);
                assert(t.take(b - a) == v@.subrange(a as int, b as int));
                assert(t.skip(b - a) == v@.subrange(b as int, hi as int));
                assert(!white_pred()(t[0]));
                assert(b > a);
                assert(words(w) == seq![v@.subrange(a as int, b as int)] + words(v@.subrange(b as int, hi as int)));
                lemma_join_push(acc, seq![' '], v@.subrange(a as int, b as int));
            }
            if any {
                out.push(' ');
            }
            let mut j: usize = a;
            let ghost base = out@;
            while j < b
                invariant
                    a <= j <= b <= hi <= v@.len(),
                    out@ == base + v@.subrange(a as int, j as int),
                decreases b - j,
            {
                out.push(v[j]);
                assert(v@.subrange(a as int, j + 1) == v@.subrange(a as int, j as int).push(v@[j as int]));
                j = j + 1;
            }
            proof {
                assert(acc.push(v@.subrange(a as int, b as int)) + words(v@.subrange(b as int, hi as int))
                    == acc + words(w));
                acc = acc.push(v@.subrange(a as int, b as int));
            }
            any = true;
            i = b;
        }
    }
    proof {
        assert(words(v@.subrange(hi as int, hi as int)) == Seq::<Seq<char>>::empty());
        assert(acc + Seq::<Seq<char>>::empty() == acc);
    }
    out
}


/// Whether `needle` occurs in `hay` (the empty needle occurs everywhere).
pub open spec fn contains_spec(hay: Seq<char>, needle: Seq<char>) -> bool {
    exists|i: int| 0 <= i && i + needle.len() <= hay.len() && #[trigger] hay.subrange(i, i + needle.len()) == needle
}

/// The first position at which `needle` occurs in `s`, if any.
pub open spec fn find_sub(s: Seq<char>, needle: Seq<char>) -> Option<int>
    decreases s.len(),
{
    if s.len() < needle.len() {
        None
    } else if s.take(needle.len() as int) == needle {
        Some(0)
    } else if s.len() == 0 {
        None
    } else {
        match find_sub(s.drop_first(), needle) {
            Some(k) => Some(k + 1),
            None => None,
        }
    }
}

/// Whether `v[lo..lo + w.len()]` equals `w`.
pub fn window_eq(v: &Vec<char>, lo: usize, w: &Vec<char>) -> (r: bool)
    requires
        lo + w@.len() <= v@.len(),
    ensures
        r == (v@.subrange(lo as int, lo + w@.len()) == w@),
{
    let n = v.len();
    let mut k: usize = 0;
    while k < w.len()
        invariant
            lo + w@.len() <= v@.len() == n,
            k <= w@.len(),
            forall|j: int| 0 <= j < k ==> v@[lo + j] == w@[j],
        decreases w@.len() - k,
    {
        assert(lo + k < v@.len());
        if v[lo + k] != w[k] {
            assert(v@.subrange(lo as int, lo + w@.len())[k as int] != w@[k as int]);
            return false;
        }
        k = k + 1;
    }
    assert(v@.subrange(lo as int, lo + w@.len()) =~= w@);
    true
}

/// Whether the window `v[lo..hi]` begins with `w`.
pub fn starts_with_at(v: &Vec<char>, lo: usize, hi: usize, w: &Vec<char>) -> (r: bool)
    requires
        lo <= hi <= v@.len(),
    ensures
        r == (w@.len() <= hi - lo && v@.subrange(lo as int, hi as int).take(w@.len() as int) == w@),
{
    if w.len() > hi - lo {
        return false;
    }
    let r = window_eq(v, lo, w);
    assert(v@.subrange(lo as int, hi as int).take(w@.len() as int) == v@.subrange(lo as int, lo + w@.len()));
    r
}

/// The first position in the window `v[lo..hi]` at which `w` occurs, relative
/// to `lo`, or `None`.
pub fn find_sub_at(v: &Vec<char>, lo: usize, hi: usize, w: &Vec<char>) -> (r: Option<usize>)
    requires
        lo <= hi <= v@.len(),
    ensures
        match r {
            Some(k) => find_sub(v@.subrange(lo as int, hi as int), w@) == Some(k as int) && k + w@.len() <= hi - lo,
            None => find_sub(v@.subrange(lo as int, hi as int), w@) is None,
        },
{
    let mut i: usize = lo;
    while i < hi
        invariant
            lo <= i <= hi <= v@.len(),
            find_sub(v@.subrange(lo as int, hi as int), w@) == match find_sub(
                v@.subrange(i as int, hi as int),
                w@,
            ) {
                Some(k) => Some(k + (i - lo)),
                None => None,
            },
        decreases hi - i,
    {
        let ghost cur = v@.subrange(i as int, hi as int);
        if w.len() > hi - i {
            assert(find_sub(cur, w@) is None);
            return None;
        }
        if starts_with_at(v, i, hi, w) {
            return Some(i - lo);
        }
        assert(cur.drop_first() == v@.subrange(i + 1, hi as int));
        i = i + 1;
    }
    if starts_with_at(v, hi, hi, w) {
        Some(hi - lo)
    } else {
        None
    }
}

/// Whether `needle` occurs in the window `v[lo..hi]`.
pub fn contains_at(v: &Vec<char>, lo: usize, hi: usize, needle: &Vec<char>) -> (r: bool)
    requires
        lo <= hi <= v@.len(),
    ensures
        r == contains_spec(v@.subrange(lo as int, hi as int), needle@),
{
    let found = find_sub_at(v, lo, hi, needle);
    proof { lemma_find_sub_contains(v@.subrange(lo as int, hi as int), needle@); }
    found.is_some()
}

/// `find_sub` finds something exactly when the needle occurs.
pub proof fn lemma_find_sub_contains(s: Seq<char>, needle: Seq<char>)
    ensures
        (find_sub(s, needle) is Some) == contains_spec(s, needle),
        match find_sub(s, needle) {
            Some(k) => 0 <= k && k + needle.len() <= s.len() && s.subrange(k, k + needle.len()) == needle,
            None => true,
        },
    decreases s.len(),
{
    if s.len() < needle.len() {
        assert(!contains_spec(s, needle));
    } else if s.take(needle.len() as int) == needle {
        assert(s.subrange(0, 0int + needle.len()) == needle);
    } else if s.len() == 0 {
        assert(needle.len() == 0);
        assert(s.take(0) =~= needle);
    } else {
        let t = s.drop_first();
        lemma_find_sub_contains(t, needle);
        if contains_spec(s, needle) {
            let i = choose|i: int| 0 <= i && i + needle.len() <= s.len() && #[trigger] s.subrange(i, i + needle.len()) == needle;
            if i == 0 {
                assert(s.take(needle.len() as int) == s.subrange(0, needle.len() as int));
            } else {
                assert(t.subrange(i - 1, i - 1 + needle.len()) == s.subrange(i, i + needle.len()));
            }
        }
        if let Some(k) = find_sub(t, needle) {
            assert(s.subrange(k + 1, k + 1 + needle.len()) == t.subrange(k, k + needle.len()));
        }
    }
}

/// Bytes `c` takes in UTF-8.
pub open spec fn utf8_len(c: char) -> nat {
    if (c as u32) < 0x80 {
        1
    } else if (c as u32) < 0x800 {
        2
    } else if (c as u32) < 0x10000 {
        3
    } else {
        4
    }
}

/// Bytes `s` takes in UTF-8, which is what `str::len` counts.
pub open spec fn utf8_width(s: Seq<char>) -> nat
    decreases s.len(),
{
    if s.len() == 0 { 0 } else { utf8_width(s.drop_last()) + utf8_len(s.last()) }
}

/// Exec [`utf8_len`], as `char::len_utf8` answers it.
pub fn char_utf8_len(c: char) -> (r: usize)
    ensures
        r == utf8_len(c),
{
    let n = c as u32;
    if n < 0x80 {
        1
    } else if n < 0x800 {
        2
    } else if n < 0x10000 {
        3
    } else {
        4
    }
}


/// The index of the last occurrence of `c` in `s`.
pub open spec fn last_index_of(s: Seq<char>, c: char) -> Option<int>
    decreases s.len(),
{
    if s.len() == 0 {
        None
    } else if s.last() == c {
        Some(s.len() - 1)
    } else {
        last_index_of(s.drop_last(), c)
    }
}

/// The last index in the window `v[lo..hi]` holding `c`, relative to `lo`.
pub fn rfind_char(v: &Vec<char>, lo: usize, hi: usize, c: char) -> (r: Option<usize>)
    requires
        lo <= hi <= v@.len(),
    ensures
        match r {
            Some(k) => lo + k < hi && last_index_of(v@.subrange(lo as int, hi as int), c) == Some(k as int),
            None => last_index_of(v@.subrange(lo as int, hi as int), c) is None,
        },
{
    let mut i: usize = hi;
    while i > lo
        invariant
            lo <= i <= hi <= v@.len(),
            last_index_of(v@.subrange(lo as int, hi as int), c) == last_index_of(v@.subrange(lo as int, i as int), c),
        decreases i - lo,
    {
        assert(v@.subrange(lo as int, i as int).drop_last() == v@.subrange(lo as int, i - 1));
        if v[i - 1] == c {
            return Some(i - 1 - lo);
        }
        i = i - 1;
    }
    None
}

/// What follows the first occurrence of `marker` in `hay`.
pub open spec fn after_marker_spec(hay: Seq<char>, marker: Seq<char>) -> Option<Seq<char>> {
    match find_sub(hay, marker) {
        Some(k) => Some(hay.skip(k + marker.len())),
        None => None,
    }
}

/// Where the text after the first `marker` in `v[lo..hi]` starts.
pub fn after_marker_at(v: &Vec<char>, lo: usize, hi: usize, marker: &str) -> (r: Option<usize>)
    requires
        lo <= hi <= v@.len(),
    ensures
        match r {
            Some(p) => lo <= p <= hi && after_marker_spec(v@.subrange(lo as int, hi as int), marker@) == Some(
                v@.subrange(p as int, hi as int),
            ),
            None => after_marker_spec(v@.subrange(lo as int, hi as int), marker@) is None,
        },
{
    let m = chars_of(marker);
    match find_sub_at(v, lo, hi, &m) {
        Some(k) => {
            assert(v@.subrange(lo as int, hi as int).skip(k + m@.len()) == v@.subrange(lo + k + m@.len(), hi as int));
            Some(lo + k + m.len())
        },
        None => None,
    }
}

/// The value of a run of decimal digits.
pub open spec fn digits_value(s: Seq<char>) -> nat
    decreases s.len(),
{
    if s.len() == 0 {
        0
    } else {
        digits_value(s.drop_last()) * 10 + ((s.last() as int) - ('0' as int)) as nat
    }
}

/// Whether every character of `s` is an ASCII digit.
pub open spec fn all_digits(s: Seq<char>) -> bool {
    forall|i: int| 0 <= i < s.len() ==> is_digit(#[trigger] s[i])
}

/// What `str::parse::<usize>` gives for `s`: an optional `+` and then one or
/// more ASCII digits whose value fits a `usize`; anything else fails.
pub open spec fn parse_usize_spec(s: Seq<char>) -> Option<usize> {
    let d = if s.len() > 0 && s[0] == '+' { s.drop_first() } else { s };
    if d.len() > 0 && all_digits(d) && digits_value(d) <= usize::MAX {
        Some(digits_value(d) as usize)
    } else {
        None
    }
}

proof fn lemma_digits_value_grows(s: Seq<char>, k: int)
    requires
        0 <= k <= s.len(),
        all_digits(s),
    ensures
        digits_value(s.take(k)) <= digits_value(s),
    decreases s.len() - k,
{
    if k < s.len() {
        lemma_digits_value_grows(s, k + 1);
        assert(s.take(k + 1).drop_last() == s.take(k));
        assert(is_digit(s[k]));
        assert(s.take(k + 1).last() == s[k]);
    } else {
        assert(s.take(k) == s);
    }
}

/// [`parse_usize_spec`] of the window `v[lo..hi]`.
pub fn parse_usize_at(v: &Vec<char>, lo: usize, hi: usize) -> (r: Option<usize>)
    requires
        lo <= hi <= v@.len(),
    ensures
        r == parse_usize_spec(v@.subrange(lo as int, hi as int)),
{
    let ghost s = v@.subrange(lo as int, hi as int);
    let mut start: usize = lo;
    if lo < hi && v[lo] == '+' {
        start = lo + 1;
    }
    let ghost d = v@.subrange(start as int, hi as int);
    assert(d == (if s.len() > 0 && s[0] == '+' { s.drop_first() } else { s }));
    if start == hi {
        return None;
    }
    let mut val: usize = 0;
    let mut i: usize = start;
    while i < hi
        invariant
            lo <= start <= i <= hi <= v@.len(),
            d == v@.subrange(start as int, hi as int),
            s == v@.subrange(lo as int, hi as int),
            d == (if s.len() > 0 && s[0] == '+' { s.drop_first() } else { s }),
            start < hi,
            all_digits(v@.subrange(start as int, i as int)),
            val == digits_value(v@.subrange(start as int, i as int)),
        decreases hi - i,
    {
        let c = v[i];
        if !('0' <= c && c <= '9') {
            assert(!is_digit(d[i - start]));
            return None;
        }
        let dv = ((c as u32) - 48) as usize;
        let ghost pre = v@.subrange(start as int, i + 1);
        proof {
            assert(pre.drop_last() == v@.subrange(start as int, i as int));
            assert(all_digits(pre));
            if all_digits(d) {
                assert(d.take(i + 1 - start) == pre);
                lemma_digits_value_grows(d, i + 1 - start);
            }
        }
        let m = match val.checked_mul(10) {
            Some(m) => m,
            None => return None,
        };
        let n = match m.checked_add(dv) {
            Some(n) => n,
            None => return None,
        };
        val = n;
        i = i + 1;
    }
    Some(val)
}

/// What `str::parse::<u64>` gives for `s`: an optional `+` and then one or
/// more ASCII digits whose value fits a `u64`; anything else fails.
pub open spec fn parse_u64_spec(s: Seq<char>) -> Option<u64> {
    let d = if s.len() > 0 && s[0] == '+' { s.drop_first() } else { s };
    if d.len() > 0 && all_digits(d) && digits_value(d) <= u64::MAX {
        Some(digits_value(d) as u64)
    } else {
        None
    }
}

/// [`parse_u64_spec`] of the window `v[lo..hi]`.
pub fn parse_u64_at(v: &Vec<char>, lo: usize, hi: usize) -> (r: Option<u64>)
    requires
        lo <= hi <= v@.len(),
    ensures
        r == parse_u64_spec(v@.subrange(lo as int, hi as int)),
{
    let ghost s = v@.subrange(lo as int, hi as int);
    let mut start: usize = lo;
    if lo < hi && v[lo] == '+' {
        start = lo + 1;
    }
    let ghost d = v@.subrange(start as int, hi as int);
    assert(d == (if s.len() > 0 && s[0] == '+' { s.drop_first() } else { s }));
    if start == hi {
        return None;
    }
    let mut val: u64 = 0;
    let mut i: usize = start;
    while i < hi
        invariant
            lo <= start <= i <= hi <= v@.len(),
            d == v@.subrange(start as int, hi as int),
            s == v@.subrange(lo as int, hi as int),
            d == (if s.len() > 0 && s[0] == '+' { s.drop_first() } else { s }),
            start < hi,
            all_digits(v@.subrange(start as int, i as int)),
            val == digits_value(v@.subrange(start as int, i as int)),
        decreases hi - i,
    {
        let c = v[i];
        if !('0' <= c && c <= '9') {
            assert(!is_digit(d[i - start]));
            return None;
        }
        let dv = ((c as u32) - 48) as u64;
        let ghost pre = v@.subrange(start as int, i + 1);
        proof {
            assert(pre.drop_last() == v@.subrange(start as int, i as int));
            assert(all_digits(pre));
            if all_digits(d) {
                assert(d.take(i + 1 - start) == pre);
                lemma_digits_value_grows(d, i + 1 - start);
            }
        }
        let m = match val.checked_mul(10) {
            Some(m) => m,
            None => return None,
        };
        let n = match m.checked_add(dv) {
            Some(n) => n,
            None => return None,
        };
        val = n;
        i = i + 1;
    }
    Some(val)
}

/// The value of the leading ASCII digits of `s` after leading whitespace,
/// as `str::parse::<usize>` reads them (`None` if there are none or they
/// overflow).
pub open spec fn leading_usize_spec(s: Seq<char>) -> Option<usize> {
    let t = ltrim(s, white_pred());
    let k = match first_where(t, class_pred(CharClass::NonDigit)) {
        Some(k) => k,
        None => t.len() as int,
    };
    parse_usize_spec(t.take(k))
}

/// [`leading_usize_spec`] of the window `v[lo..hi]`.
pub fn leading_usize_at(v: &Vec<char>, lo: usize, hi: usize) -> (r: Option<usize>)
    requires
        lo <= hi <= v@.len(),
    ensures
        r == leading_usize_spec(v@.subrange(lo as int, hi as int)),
{
    let a = skip_class(v, lo, hi, CharClass::White);
    let b = find_class(v, a, hi, CharClass::NonDigit);
    proof {
        assert(class_pred(CharClass::White) == white_pred());
        assert(v@.subrange(a as int, hi as int).take(b - a) == v@.subrange(a as int, b as int));
    }
    parse_usize_at(v, a, b)
}

/// `c` with an ASCII capital lowered, as `char::to_ascii_lowercase` does.
pub open spec fn ascii_lower(c: char) -> char {
    if 'A' <= c && c <= 'Z' {
        ((c as u32) + 32) as char
    } else {
        c
    }
}

/// `c` with an ASCII capital lowered (see [`ascii_lower`]): `A`..=`Z` map to
/// `a`..=`z`, every other character is left as it is.
pub(crate) fn char_to_ascii_lowercase(c: char) -> (r: char)
    ensures
        r == ascii_lower(c),
{
    if 'A' <= c && c <= 'Z' {
        let b: u8 = (c as u8) + 32;
        b as char
    } else {
        c
    }
}

/// The window `v[lo..hi]` with ASCII capitals lowered.
pub fn ascii_lower_range(v: &Vec<char>, lo: usize, hi: usize) -> (r: Vec<char>)
    requires
        lo <= hi <= v@.len(),
    ensures
        r@ == v@.subrange(lo as int, hi as int).map_values(|c: char| ascii_lower(c)),
{
    let mut out: Vec<char> = Vec::new();
    let mut i: usize = lo;
    while i < hi
        invariant
            lo <= i <= hi <= v@.len(),
            out@ == v@.subrange(lo as int, i as int).map_values(|c: char| ascii_lower(c)),
        decreases hi - i,
    {
        out.push(char_to_ascii_lowercase(v[i]));
        assert(v@.subrange(lo as int, i + 1).map_values(|c: char| ascii_lower(c)) =~= v@.subrange(lo as int, i as int).map_values(|c: char| ascii_lower(c)).push(ascii_lower(v@[i as int])));
        i = i + 1;
    }
    out
}

/// The models of a list of words.
pub open spec fn words_view(ws: Seq<Vec<char>>) -> Seq<Seq<char>> {
    ws.map_values(|w: Vec<char>| w@)
}

/// The characters of each string in `ss`.
pub fn word_list(ss: &[&str]) -> (r: Vec<Vec<char>>)
    ensures
        r@.len() == ss@.len(),
        forall|i: int| 0 <= i < ss@.len() ==> #[trigger] r@[i]@ == ss@[i]@,
{
    let mut out: Vec<Vec<char>> = Vec::new();
    let mut i: usize = 0;
    while i < ss.len()
        invariant
            i <= ss@.len(),
            out@.len() == i,
            forall|j: int| 0 <= j < i ==> #[trigger] out@[j]@ == ss@[j]@,
        decreases ss@.len() - i,
    {
        out.push(chars_of(ss[i]));
        i = i + 1;
    }
    out
}


/// The words of `v[lo..hi]`, as `str::split_whitespace` yields them.
pub fn words_of(v: &Vec<char>, lo: usize, hi: usize) -> (r: Vec<Vec<char>>)
    requires
        lo <= hi <= v@.len(),
    ensures
        words_view(r@) == words(v@.subrange(lo as int, hi as int)),
{
    let mut out: Vec<Vec<char>> = Vec::new();
    let mut i: usize = lo;
    assert(words_view(out@) + words(v@.subrange(lo as int, hi as int)) =~= words(v@.subrange(lo as int, hi as int)));
    while i < hi
        invariant
            lo <= i <= hi <= v@.len(),
            words(v@.subrange(lo as int, hi as int)) == words_view(out@) + words(v@.subrange(i as int, hi as int)),
        decreases hi - i,
    {
        let ghost w = v@.subrange(i as int, hi as int);
        let a = skip_class(v, i, hi, CharClass::White);
        assert(class_pred(CharClass::White) == white_pred());
        if a == hi {
            assert(ltrim(w, white_pred()).len() == 0);
            assert(words(w) == Seq::<Seq<char>>::empty());
            i = hi;
        } else {
            let b = find_class(v, a, hi, CharClass::White);
            let ghost t = v@.subrange(a as int, hi as int);
            proof {
                assert(ltrim(w, white_pred()) == t);
                lemma_ltrim_suffix(w, white_pred());
                lemma_first_where(t, white_pred());
                assert(t[0] == v@[a as int]);
                assert(t.take(b - a) == v@.subrange(a as int, b as int));
                assert(t.skip(b - a) == v@.subrange(b as int, hi as int));
                assert(words(w) == seq![v@.subrange(a as int, b as int)] + words(v@.subrange(b as int, hi as int)));
            }
            let ghost o0 = words_view(out@);
            let mut word: Vec<char> = Vec::new();
            extend_chars(&mut word, v, a, b);
            assert(word@ =~= v@.subrange(a as int, b as int));
            out.push(word);
            assert(words_view(out@) =~= o0.push(v@.subrange(a as int, b as int)));
            assert(o0.push(v@.subrange(a as int, b as int)) + words(v@.subrange(b as int, hi as int)) =~= o0 + words(w));
            i = b;
        }
    }
    assert(words(v@.subrange(hi as int, hi as int)) == Seq::<Seq<char>>::empty());
    assert(words_view(out@) + Seq::<Seq<char>>::empty() =~= words_view(out@));
    out
}

/// The words of `v[lo..hi]` run together with nothing between them.
pub fn concat_words(v: &Vec<char>, lo: usize, hi: usize) -> (r: Vec<char>)
    requires
        lo <= hi <= v@.len(),
    ensures
        r@ == join(words(v@.subrange(lo as int, hi as int)), Seq::empty()),
{
    let mut out: Vec<char> = Vec::new();
    let mut i: usize = lo;
    let ghost mut acc: Seq<Seq<char>> = Seq::empty();
    assert(acc + words(v@.subrange(lo as int, hi as int)) == words(v@.subrange(lo as int, hi as int)));
    while i < hi
        invariant
            lo <= i <= hi <= v@.len(),
            words(v@.subrange(lo as int, hi as int)) == acc + words(v@.subrange(i as int, hi as int)),
            out@ == join(acc, Seq::empty()),
        decreases hi - i,
    {
        let ghost w = v@.subrange(i as int, hi as int);
        let a = skip_class(v, i, hi, CharClass::White);
        assert(class_pred(CharClass::White) == white_pred());
        if a == hi {
            assert(ltrim(w, white_pred()).len() == 0);
            assert(words(w) == Seq::<Seq<char>>::empty());
            i = hi;
        } else {
            let b = find_class(v, a, hi, CharClass::White);
            let ghost t = v@.subrange(a as int, hi as int);
            proof {
                assert(ltrim(w, white_pred()) == t);
                lemma_ltrim_suffix(w, white_pred());
                lemma_first_where(t, white_pred());
                assert(t[0] == v@[a as int]);
                assert(t.take(b - a) == v@.subrange(a as int, b as int));
                assert(t.skip(b - a) == v@.subrange(b as int, hi as int));
                assert(words(w) == seq![v@.subrange(a as int, b as int)] + words(v@.subrange(b as int, hi as int)));
                lemma_join_push(acc, Seq::empty(), v@.subrange(a as int, b as int));
            }
            extend_chars(&mut out, v, a, b);
            proof {
                assert(acc.push(v@.subrange(a as int, b as int)) + words(v@.subrange(b as int, hi as int)) == acc + words(w));
                if acc.len() > 0 {
                    assert(join(acc, Seq::empty()) + Seq::<char>::empty() == join(acc, Seq::empty()));
                }
                acc = acc.push(v@.subrange(a as int, b as int));
            }
            i = b;
        }
    }
    proof {
        assert(words(v@.subrange(hi as int, hi as int)) == Seq::<Seq<char>>::empty());
        assert(acc + Seq::<Seq<char>>::empty() == acc);
    }
    out
}

// ---------------------------------------------------------------------------
// Decimal rendering
// ---------------------------------------------------------------------------

/// The decimal digit character for `d < 10`.
pub open spec fn digit_char(d: nat) -> char {
    if d == 0 { '0' }
    else if d == 1 { '1' }
    else if d == 2 { '2' }
    else if d == 3 { '3' }
    else if d == 4 { '4' }
    else if d == 5 { '5' }
    else if d == 6 { '6' }
    else if d == 7 { '7' }
    else if d == 8 { '8' }
    else { '9' }
}

/// The decimal rendering of `n`, without leading zeros (`"0"` for zero).
pub open spec fn decimal(n: nat) -> Seq<char>
    decreases n,
{
    if n < 10 {
        seq![digit_char(n)]
    } else {
        decimal(n / 10).push(digit_char(n % 10))
    }
}

fn digit(d: usize) -> (c: char)
    requires
        d < 10,
    ensures
        c == digit_char(d as nat),
{
    if d == 0 { '0' }
    else if d == 1 { '1' }
    else if d == 2 { '2' }
    else if d == 3 { '3' }
    else if d == 4 { '4' }
    else if d == 5 { '5' }
    else if d == 6 { '6' }
    else if d == 7 { '7' }
    else if d == 8 { '8' }
    else { '9' }
}

/// Append the decimal rendering of `n` to `out`.
pub fn push_decimal(out: &mut String, n: usize)
    ensures
        final(out)@ == old(out)@ + decimal(n as nat),
    decreases n,
{
    if n < 10 {
        push_char(out, digit(n));
        assert(old(out)@.push(digit_char(n as nat)) == old(out)@ + seq![digit_char(n as nat)]);
    } else {
        push_decimal(out, n / 10);
        push_char(out, digit(n % 10));
        assert(old(out)@ + decimal((n / 10) as nat).push(digit_char((n % 10) as nat)) == (old(out)@ + decimal((n / 10) as nat)).push(digit_char((n % 10) as nat)));
    }
}

/// The decimal rendering of `n`.
pub fn usize_to_string(n: usize) -> (s: String)
    ensures
        s@ == decimal(n as nat),
{
    let mut s = String::new();
    push_decimal(&mut s, n);
    assert(Seq::<char>::empty() + decimal(n as nat) == decimal(n as nat));
    s
}

/// Length of the decimal rendering is at least one.
pub proof fn lemma_decimal_nonempty(n: nat)
    ensures
        decimal(n).len() >= 1,
    decreases n,
{
    if n >= 10 {
        lemma_decimal_nonempty(n / 10);
    }
}

} // verus!
