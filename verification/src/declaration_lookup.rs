//! Four-valued declaration lookup.
//!
//! A boolean `found` / `not found` cannot distinguish four situations that
//! demand four different actions, so a lookup answers with a [`Verdict`]:
//!
//! | Verdict | ACTION it licenses |
//! |---|---|
//! | `Found` | use it |
//! | `NotInCurrentImportScope` | add the import |
//! | `UnknownDeclaration` | try another name |
//! | `EnvironmentError` | retry / degrade, conclude nothing |
//!
//! An `EnvironmentError` is never collapsed into `UnknownDeclaration`: a dead
//! toolchain is a fact about the infrastructure, not about the library. The
//! fast path ([`fast_check`]) can confirm a name but never refute one; only
//! [`deep_check`] may conclude absence, and only when both tiers ran cleanly.
use vstd::prelude::*;

use crate::backend::TextView;
use crate::formal::{views, FormalSystem};
use crate::text::{
    chars_of, class_pred, last_index_of, ltrim, owned, push_char, rtrim, string_of_range, trim, trim_class,
    CharClass,
};

verus! {

// ---------------------------------------------------------------------------
// Names
// ---------------------------------------------------------------------------

/// The qualifier separator of a system's names (`None` for flat labels).
pub open spec fn separator_spec(system: FormalSystem) -> Option<char> {
    match system {
        FormalSystem::Candle | FormalSystem::Metamath => None,
        _ => Some('.'),
    }
}

/// `s` without one surrounding `open`…`close` pair, when it has one.
pub open spec fn strip_pair(s: Seq<char>, open: char, close: char) -> Seq<char> {
    if s.len() >= 2 && s[0] == open && s.last() == close {
        s.subrange(1, s.len() - 1)
    } else {
        s
    }
}

/// One round of unwrapping: trim quoting decoration, then a `‹…›` pair, then a
/// `«…»` pair.
pub open spec fn unwrap_step(s: Seq<char>) -> Seq<char> {
    strip_pair(strip_pair(trim(s, class_pred(CharClass::Quoting)), '‹', '›'), '«', '»')
}

/// Unwrapping repeated until a round removes nothing.
pub open spec fn unwrap_all(s: Seq<char>) -> Seq<char>
    decreases s.len(),
{
    let t = unwrap_step(s);
    if t.len() < s.len() {
        unwrap_all(t)
    } else {
        s
    }
}

/// `s` with every run of `sep` collapsed to a single `sep` (`last_sep` says
/// whether the character before `s` was a separator).
pub open spec fn collapse(s: Seq<char>, sep: char, last_sep: bool) -> Seq<char>
    decreases s.len(),
{
    if s.len() == 0 {
        Seq::empty()
    } else if s[0] == sep {
        if last_sep {
            collapse(s.drop_first(), sep, true)
        } else {
            seq![sep] + collapse(s.drop_first(), sep, true)
        }
    } else {
        seq![s[0]] + collapse(s.drop_first(), sep, false)
    }
}

/// The canonical form of a raw name: decoration that is unambiguously not part
/// of the name is removed, and for qualified systems outer separators are
/// trimmed and runs of separators collapsed. Case is never changed.
pub open spec fn normalize_spec(system: FormalSystem, raw: Seq<char>) -> Seq<char> {
    let s = unwrap_all(trim(raw, class_pred(CharClass::White)));
    match separator_spec(system) {
        None => s,
        Some(sep) => collapse(trim(s, class_pred(CharClass::Only(sep))), sep, false),
    }
}

/// The module path owning a name: everything before the last separator of the
/// normalized name, when that is non-empty.
pub open spec fn module_of_spec(system: FormalSystem, name: Seq<char>) -> Option<Seq<char>> {
    match separator_spec(system) {
        None => None,
        Some(sep) => {
            let n = normalize_spec(system, name);
            match last_index_of(n, sep) {
                None => None,
                Some(i) => if i == 0 {
                    None
                } else {
                    Some(n.subrange(0, i))
                },
            }
        },
    }
}

/// The view of an optional string.
pub open spec fn opt_view(o: Option<String>) -> Option<Seq<char>> {
    match o {
        Some(s) => Some(s@),
        None => None,
    }
}

/// The qualifier separator for `system`'s declaration names, or `None` for a
/// system with flat, unqualified labels.
pub fn separator(system: FormalSystem) -> (r: Option<char>)
    ensures
        r == separator_spec(system),
{
    match system {
        FormalSystem::Lean | FormalSystem::Rocq | FormalSystem::Isabelle | FormalSystem::Agda => {
            Some('.')
        },
        FormalSystem::Candle | FormalSystem::Metamath => None,
    }
}

/// Strip one `open`…`close` pair from the window `v[lo..hi]`.
fn strip_pair_window(v: &Vec<char>, lo: usize, hi: usize, open: char, close: char) -> (r: (
    usize,
    usize,
))
    requires
        lo <= hi <= v@.len(),
    ensures
        lo <= r.0 <= r.1 <= hi,
        v@.subrange(r.0 as int, r.1 as int) == strip_pair(
            v@.subrange(lo as int, hi as int),
            open,
            close,
        ),
{
    if hi - lo >= 2 && v[lo] == open && v[hi - 1] == close {
        assert(v@.subrange(lo as int, hi as int).subrange(1, (hi - lo) - 1) == v@.subrange(
            lo + 1,
            hi - 1,
        ));
        (lo + 1, hi - 1)
    } else {
        (lo, hi)
    }
}

/// Canonicalize a name the model produced into the form the index is keyed by.
///
/// Removes surrounding whitespace, backticks and quotes, Lean's `‹…›` / `«…»`
/// delimiters, leading/trailing separators (Rocq's absolute `.`), and runs of
/// repeated separators. It never changes case and never guesses a module.
pub fn normalize(system: FormalSystem, raw: &str) -> (r: String)
    ensures
        r@ == normalize_spec(system, raw@),
{
    let v = chars_of(raw);
    proof {
        assert(v@.subrange(0, v@.len() as int) == raw@);
    }
    let (mut lo, mut hi) = trim_class(&v, 0, v.len(), CharClass::White);
    loop
        invariant
            lo <= hi <= v@.len(),
            v@ == raw@,
            unwrap_all(trim(raw@, class_pred(CharClass::White))) == unwrap_all(v@.subrange(lo as int, hi as int)),
        ensures
            lo <= hi <= v@.len(),
            v@ == raw@,
            unwrap_all(trim(raw@, class_pred(CharClass::White))) == v@.subrange(lo as int, hi as int),
        decreases hi - lo,
    {
        let (a, b) = trim_class(&v, lo, hi, CharClass::Quoting);
        let (a, b) = strip_pair_window(&v, a, b, '‹', '›');
        let (a, b) = strip_pair_window(&v, a, b, '«', '»');
        if b - a == hi - lo {
            assert(unwrap_step(v@.subrange(lo as int, hi as int)) == v@.subrange(a as int, b as int));
            assert(unwrap_all(v@.subrange(lo as int, hi as int)) == v@.subrange(lo as int, hi as int));
            break;
        }
        lo = a;
        hi = b;
    }
    match separator(system) {
        None => string_of_range(&v, lo, hi),
        Some(sep) => {
            let (a, b) = trim_class(&v, lo, hi, CharClass::Only(sep));
            let mut out = String::new();
            let mut last_was_sep = false;
            let mut i: usize = a;
            let ghost w = v@.subrange(a as int, b as int);
            while i < b
                invariant
                    a <= i <= b <= v@.len(),
                    w == v@.subrange(a as int, b as int),
                    collapse(w, sep, false) == out@ + collapse(
                        v@.subrange(i as int, b as int),
                        sep,
                        last_was_sep,
                    ),
                decreases b - i,
            {
                let c = v[i];
                assert(v@.subrange(i as int, b as int).drop_first() == v@.subrange(i + 1, b as int));
                if c == sep {
                    if !last_was_sep {
                        push_char(&mut out, c);
                    }
                    last_was_sep = true;
                } else {
                    push_char(&mut out, c);
                    last_was_sep = false;
                }
                i = i + 1;
            }
            assert(collapse(v@.subrange(b as int, b as int), sep, last_was_sep) == Seq::<char>::empty());
            assert(out@ + Seq::<char>::empty() == out@);
            out
        },
    }
}

/// The module/theory path that owns `name`, or `None` for an unqualified name.
///
/// `Nat.succ_le_succ` → `Some("Nat")`; `ax-mp` (Metamath) → `None`.
pub fn module_of(system: FormalSystem, name: &str) -> (r: Option<String>)
    ensures
        opt_view(r) == module_of_spec(system, name@),
{
    let sep = match separator(system) {
        Some(s) => s,
        None => return None,
    };
    let normalized = normalize(system, name);
    let v = chars_of(normalized.as_str());
    let mut i: usize = v.len();
    assert(v@.take(v@.len() as int) == v@);
    while i > 0 && v[i - 1] != sep
        invariant
            i <= v@.len(),
            last_index_of(v@, sep) == last_index_of(v@.take(i as int), sep),
        decreases i,
    {
        assert(v@.take(i as int).drop_last() == v@.take(i - 1));
        i = i - 1;
    }
    if i == 0 {
        return None;
    }
    if i - 1 == 0 {
        return None;
    }
    let m = string_of_range(&v, 0, i - 1);
    Some(m)
}

// ---------------------------------------------------------------------------
// Ordering of names
// ---------------------------------------------------------------------------

/// Lexicographic order on character sequences by code point (the order of
/// `String`'s `Ord`, since UTF-8 preserves code-point order).
pub open spec fn seq_lt(a: Seq<char>, b: Seq<char>) -> bool
    decreases a.len(),
{
    if a.len() == 0 {
        b.len() > 0
    } else if b.len() == 0 {
        false
    } else if a[0] != b[0] {
        a[0] < b[0]
    } else {
        seq_lt(a.drop_first(), b.drop_first())
    }
}

/// A strictly increasing sequence of names.
pub open spec fn strictly_sorted(s: Seq<Seq<char>>) -> bool {
    forall|i: int, j: int| 0 <= i < j < s.len() ==> seq_lt(#[trigger] s[i], #[trigger] s[j])
}

pub(crate) proof fn lemma_lt_irreflexive(a: Seq<char>)
    ensures
        !seq_lt(a, a),
    decreases a.len(),
{
    if a.len() > 0 {
        lemma_lt_irreflexive(a.drop_first());
    }
}

pub(crate) proof fn lemma_lt_total(a: Seq<char>, b: Seq<char>)
    ensures
        a != b ==> seq_lt(a, b) || seq_lt(b, a),
    decreases a.len(),
{
    if a.len() == 0 && b.len() == 0 {
        assert(a =~= b);
    } else if a.len() > 0 && b.len() > 0 {
        if a[0] == b[0] {
            lemma_lt_total(a.drop_first(), b.drop_first());
            if a.drop_first() == b.drop_first() {
                assert(a =~= seq![a[0]] + a.drop_first());
                assert(b =~= seq![b[0]] + b.drop_first());
            }
        }
    }
}

pub(crate) proof fn lemma_lt_transitive(a: Seq<char>, b: Seq<char>, c: Seq<char>)
    requires
        seq_lt(a, b),
        seq_lt(b, c),
    ensures
        seq_lt(a, c),
    decreases a.len(),
{
    if a.len() > 0 && b.len() > 0 && c.len() > 0 && a[0] == b[0] && b[0] == c[0] {
        lemma_lt_transitive(a.drop_first(), b.drop_first(), c.drop_first());
    }
}

/// Exec comparison of two character vectors under [`seq_lt`].
pub(crate) fn chars_lt(a: &Vec<char>, b: &Vec<char>) -> (r: bool)
    ensures
        r == seq_lt(a@, b@),
{
    let mut i: usize = 0;
    assert(a@.skip(0) == a@);
    assert(b@.skip(0) == b@);
    while i < a.len() && i < b.len() && a[i] == b[i]
        invariant
            i <= a@.len(),
            i <= b@.len(),
            seq_lt(a@, b@) == seq_lt(a@.skip(i as int), b@.skip(i as int)),
        decreases a@.len() - i,
    {
        assert(a@.skip(i as int).drop_first() == a@.skip(i + 1));
        assert(b@.skip(i as int).drop_first() == b@.skip(i + 1));
        i = i + 1;
    }
    if i == a.len() {
        i < b.len()
    } else if i == b.len() {
        false
    } else {
        a[i] < b[i]
    }
}

// ---------------------------------------------------------------------------
// Import manifest
// ---------------------------------------------------------------------------

/// The set of modules a problem currently imports: normalized, non-empty,
/// de-duplicated and sorted, so behavior never depends on caller ordering.
#[derive(Debug, Clone, PartialEq, Eq)]
pub struct ImportManifest {
    system: FormalSystem,
    imports: Vec<String>,
}

/// Whether `x` is the normalized form of one of the raw imports and non-empty.
pub open spec fn is_normalized_import(system: FormalSystem, raw: Seq<&str>, x: Seq<char>) -> bool {
    x.len() > 0 && exists|k: int| 0 <= k < raw.len() && normalize_spec(system, #[trigger] raw[k]@) == x
}

/// Module coverage: `module` is an import or a segment-wise descendant of one.
pub open spec fn covers_spec(system: FormalSystem, imports: Seq<Seq<char>>, module: Seq<char>) -> bool {
    let m = normalize_spec(system, module);
    match separator_spec(system) {
        None => exists|i: int| 0 <= i < imports.len() && #[trigger] imports[i] == m,
        Some(sep) => exists|i: int|
            0 <= i < imports.len() && (#[trigger] imports[i] == m || (m.len() > imports[i].len()
                && m.subrange(0, imports[i].len() as int) == imports[i] && m[imports[i].len() as int]
                == sep)),
    }
}

/// Insert `nv` into a strictly sorted list of names, unless already present.
fn insert_sorted(out: &mut Vec<String>, keys: &mut Vec<Vec<char>>, n: String, nv: Vec<char>)
    requires
        old(out)@.len() == old(keys)@.len(),
        forall|i: int| 0 <= i < old(out)@.len() ==> #[trigger] old(out)@[i]@ == old(keys)@[i]@,
        strictly_sorted(views(old(out)@)),
        n@ == nv@,
    ensures
        final(out)@.len() == final(keys)@.len(),
        forall|i: int| 0 <= i < final(out)@.len() ==> #[trigger] final(out)@[i]@ == final(keys)@[i]@,
        strictly_sorted(views(final(out)@)),
        forall|x: Seq<char>|
            #[trigger] views(final(out)@).contains(x) <==> (views(old(out)@).contains(x) || x == nv@),
{
    let ghost before = views(out@);
    let mut p: usize = 0;
    while p < keys.len() && chars_lt(&keys[p], &nv)
        invariant
            p <= keys@.len(),
            out@.len() == keys@.len(),
            out@ == old(out)@,
            keys@ == old(keys)@,
            forall|i: int| 0 <= i < out@.len() ==> #[trigger] out@[i]@ == keys@[i]@,
            before == views(out@),
            forall|i: int| 0 <= i < p ==> seq_lt(#[trigger] before[i], nv@),
        decreases keys@.len() - p,
    {
        p = p + 1;
    }
    let present = p < keys.len() && crate::text::chars_eq(&keys[p], &nv);
    if present {
        assert(before[p as int] == nv@);
        return;
    }
    proof {
        if p < keys@.len() {
            lemma_lt_total(before[p as int], nv@);
        }
        assert forall|i: int| p <= i < before.len() implies seq_lt(nv@, #[trigger] before[i]) by {
            lemma_lt_total(before[p as int], nv@);
            if i > p {
                lemma_lt_transitive(nv@, before[p as int], before[i]);
            }
        }
    }
    out.insert(p, n);
    keys.insert(p, nv);
    proof {
        let after = views(out@);
        assert(after =~= before.insert(p as int, nv@));
        assert forall|i: int, j: int| 0 <= i < j < after.len() implies seq_lt(
            #[trigger] after[i],
            #[trigger] after[j],
        ) by {
            if j < p {
            } else if j == p {
            } else if i < p {
                lemma_lt_transitive(before[i], nv@, before[j - 1]);
            } else if i == p {
            } else {
            }
        }
        assert forall|x: Seq<char>| after.contains(x) <==> (before.contains(x) || x == nv@) by {
            if after.contains(x) {
                let t = choose|t: int| 0 <= t < after.len() && after[t] == x;
                if t < p {
                    assert(before[t] == x);
                } else if t > p {
                    assert(before[t - 1] == x);
                }
            }
            if before.contains(x) {
                let t = choose|t: int| 0 <= t < before.len() && before[t] == x;
                if t < p {
                    assert(after[t] == x);
                } else {
                    assert(after[t + 1] == x);
                }
            }
            if x == nv@ {
                assert(after[p as int] == x);
            }
        }
    }
}

impl ImportManifest {
    /// The system this manifest is for.
    pub closed spec fn system_spec(&self) -> FormalSystem {
        self.system
    }

    /// The imports, as character sequences.
    pub closed spec fn imports_spec(&self) -> Seq<Seq<char>> {
        views(self.imports@)
    }

    /// Build a manifest for `system` from raw import strings.
    pub fn new(system: FormalSystem, imports: &[&str]) -> (r: Self)
        ensures
            r.system_spec() == system,
            strictly_sorted(r.imports_spec()),
            forall|x: Seq<char>|
                r.imports_spec().contains(x) <==> is_normalized_import(system, imports@, x),
    {
        let mut out: Vec<String> = Vec::new();
        let mut keys: Vec<Vec<char>> = Vec::new();
        let mut k: usize = 0;
        while k < imports.len()
            invariant
                0 <= k <= imports@.len(),
                out@.len() == keys@.len(),
                forall|i: int| 0 <= i < out@.len() ==> #[trigger] out@[i]@ == keys@[i]@,
                strictly_sorted(views(out@)),
                forall|x: Seq<char>|
                    views(out@).contains(x) <==> (x.len() > 0 && exists|j: int|
                        0 <= j < k && normalize_spec(system, #[trigger] imports@[j]@) == x),
            decreases imports@.len() - k,
        {
            let n = normalize(system, imports[k]);
            let nv = chars_of(n.as_str());
            let ghost before = views(out@);
            if nv.len() > 0 {
                insert_sorted(&mut out, &mut keys, n, nv);
            }
            proof {
                let after = views(out@);
                assert forall|x: Seq<char>| after.contains(x) <==> (x.len() > 0 && exists|j: int|
                    0 <= j < k + 1 && normalize_spec(system, #[trigger] imports@[j]@) == x) by {
                    if x.len() > 0 && exists|j: int|
                        0 <= j < k + 1 && normalize_spec(system, #[trigger] imports@[j]@) == x {
                        let j = choose|j: int|
                            0 <= j < k + 1 && normalize_spec(system, #[trigger] imports@[j]@) == x;
                        if j < k {
                            assert(before.contains(x));
                        }
                    }
                    if after.contains(x) && !before.contains(x) {
                        assert(normalize_spec(system, imports@[k as int]@) == x);
                    }
                }
            }
            k = k + 1;
        }
        ImportManifest { system, imports: out }
    }

    /// An empty manifest: nothing is in scope.
    pub fn empty(system: FormalSystem) -> (r: Self)
        ensures
            r.system_spec() == system,
            r.imports_spec().len() == 0,
    {
        let r = ImportManifest { system, imports: Vec::new() };
        assert(r.imports_spec() =~= Seq::<Seq<char>>::empty());
        r
    }

    /// The system this manifest scopes.
    pub fn system(&self) -> (r: FormalSystem)
        ensures
            r == self.system_spec(),
    {
        self.system
    }

    /// The imports, normalized and in sorted order.
    pub fn imports(&self) -> (r: &[String])
        ensures
            views(r@) == self.imports_spec(),
    {
        self.imports.as_slice()
    }

    /// Whether `module` is brought into scope by this manifest — either imported
    /// exactly, or as a descendant of an imported module path. Segment-aware:
    /// `Mathlib.Data` covers `Mathlib.Data.Nat` but NOT `Mathlib.DataFlow`.
    pub fn covers_module(&self, module: &str) -> (r: bool)
        ensures
            r == covers_spec(self.system_spec(), self.imports_spec(), module@),
    {
        let m = normalize(self.system, module);
        let mv = chars_of(m.as_str());
        let sep = separator(self.system);
        let ghost imps = self.imports_spec();
        let mut i: usize = 0;
        while i < self.imports.len()
            invariant
                0 <= i <= self.imports@.len(),
                imps == self.imports_spec(),
                mv@ == normalize_spec(self.system, module@),
                sep == separator_spec(self.system),
                forall|j: int| 0 <= j < i ==> !(#[trigger] imps[j] == mv@ || (sep.is_some() && (
                mv@.len() > imps[j].len() && mv@.subrange(0, imps[j].len() as int) == imps[j]
                    && mv@[imps[j].len() as int] == sep.unwrap()))),
            decreases self.imports@.len() - i,
        {
            let iv = chars_of(self.imports[i].as_str());
            assert(imps[i as int] == iv@);
            if crate::text::chars_eq(&iv, &mv) {
                return true;
            }
            if let Some(s) = sep {
                if mv.len() > iv.len() {
                    let mut j: usize = 0;
                    let mut prefix = true;
                    while j < iv.len()
                        invariant
                            j <= iv@.len() < mv@.len(),
                            prefix == (forall|t: int| 0 <= t < j ==> iv@[t] == mv@[t]),
                        decreases iv@.len() - j,
                    {
                        if iv[j] != mv[j] {
                            prefix = false;
                        }
                        j = j + 1;
                    }
                    if prefix {
                        assert(mv@.subrange(0, iv@.len() as int) =~= iv@);
                    } else {
                        assert(mv@.subrange(0, iv@.len() as int) != iv@) by {
                            let t = choose|t: int| 0 <= t < iv@.len() && iv@[t] != mv@[t];
                            assert(mv@.subrange(0, iv@.len() as int)[t] == mv@[t]);
                        }
                    }
                    if prefix && mv[iv.len()] == s {
                        return true;
                    }
                }
            }
            i = i + 1;
        }
        false
    }

    /// Whether a declaration is in scope. A declaration with no known module is
    /// NOT in scope: an unknown location is no licence to assume visibility.
    pub fn covers(&self, decl: &Declaration) -> (r: bool)
        ensures
            r == match decl.module {
                Some(m) => covers_spec(self.system_spec(), self.imports_spec(), m@),
                None => false,
            },
    {
        match &decl.module {
            Some(module) => self.covers_module(module.as_str()),
            None => false,
        }
    }
}

// ---------------------------------------------------------------------------
// Declarations and index errors
// ---------------------------------------------------------------------------

/// A declaration record as an index knows it.
#[derive(Debug, Clone, PartialEq, Eq)]
pub struct Declaration {
    pub system: FormalSystem,
    /// The normalized, fully-qualified name.
    pub name: String,
    /// Owning module / theory / file, when the index tracks location.
    pub module: Option<String>,
    /// The declaration's type or statement, when the index is type-aware.
    pub signature: Option<String>,
    /// `theorem` / `def` / `lemma` / `axiom` / …, when the index tracks kind.
    pub kind: Option<String>,
}

/// The module a record names, else the one implied by its dotted name.
pub open spec fn effective_module_spec(d: Declaration) -> Option<Seq<char>> {
    match d.module {
        Some(m) => Some(m@),
        None => module_of_spec(d.system, d.name@),
    }
}

impl Declaration {
    /// A minimal record: a name only, no location or signature.
    pub fn new(system: FormalSystem, name: &str) -> (r: Self)
        ensures
            r.system == system,
            r.name@ == normalize_spec(system, name@),
            r.module.is_none(),
            r.signature.is_none(),
            r.kind.is_none(),
    {
        Declaration {
            name: normalize(system, name),
            system,
            module: None,
            signature: None,
            kind: None,
        }
    }

    /// A record located in `module`.
    pub fn in_module(system: FormalSystem, name: &str, module: &str) -> (r: Self)
        ensures
            r.system == system,
            r.name@ == normalize_spec(system, name@),
            opt_view(r.module) == Some(normalize_spec(system, module@)),
            r.signature.is_none(),
            r.kind.is_none(),
    {
        let m = normalize(system, module);
        let mut d = Self::new(system, name);
        d.module = Some(m);
        d
    }

    /// The same record with a signature attached.
    pub fn with_signature(self, signature: &str) -> (r: Self)
        ensures
            r.system == self.system,
            r.name == self.name,
            r.module == self.module,
            r.kind == self.kind,
            opt_view(r.signature) == Some(signature@),
    {
        let mut d = self;
        d.signature = Some(owned(signature));
        d
    }

    /// The same record with a kind attached.
    pub fn with_kind(self, kind: &str) -> (r: Self)
        ensures
            r.system == self.system,
            r.name == self.name,
            r.module == self.module,
            r.signature == self.signature,
            opt_view(r.kind) == Some(kind@),
    {
        let mut d = self;
        d.kind = Some(owned(kind));
        d
    }

    /// The module the record carries, else the one implied by its dotted name.
    /// Used to name the import to add.
    pub fn effective_module(&self) -> (r: Option<String>)
        ensures
            opt_view(r) == effective_module_spec(*self),
    {
        match &self.module {
            Some(m) => Some(m.clone()),
            None => module_of(self.system, self.name.as_str()),
        }
    }
}

/// Why a lookup *itself* failed. Each carries zero information about whether
/// the declaration exists.
#[derive(Debug, Clone, Copy, PartialEq, Eq, Hash, Structural)]
pub enum IndexErrorKind {
    /// The prover toolchain is absent or would not start.
    ToolchainUnavailable,
    /// The declaration index has not been built, or its file is missing.
    IndexMissing,
    /// The lookup exceeded its deadline.
    Timeout,
    /// The index responded with output we could not parse.
    Malformed,
    /// Anything else that broke the lookup.
    Other,
}

/// The stable tag of an index error kind.
pub open spec fn kind_tag(k: IndexErrorKind) -> Seq<char> {
    match k {
        IndexErrorKind::ToolchainUnavailable => "toolchain_unavailable"@,
        IndexErrorKind::IndexMissing => "index_missing"@,
        IndexErrorKind::Timeout => "timeout"@,
        IndexErrorKind::Malformed => "malformed"@,
        IndexErrorKind::Other => "other"@,
    }
}

impl IndexErrorKind {
    /// Stable snake_case tag for logs and observability payloads.
    pub fn tag(self) -> (r: &'static str)
        ensures
            r@ == kind_tag(self),
    {
        match self {
            IndexErrorKind::ToolchainUnavailable => "toolchain_unavailable",
            IndexErrorKind::IndexMissing => "index_missing",
            IndexErrorKind::Timeout => "timeout",
            IndexErrorKind::Malformed => "malformed",
            IndexErrorKind::Other => "other",
        }
    }

    /// Whether retrying the same lookup could plausibly succeed without any
    /// operator action. Advisory only — it never affects the verdict.
    pub fn is_transient(self) -> (r: bool)
        ensures
            r == (self == IndexErrorKind::Timeout || self == IndexErrorKind::Other),
    {
        match self {
            IndexErrorKind::Timeout | IndexErrorKind::Other => true,
            _ => false,
        }
    }
}

/// A failure of the lookup mechanism. Distinct *by type* from `Ok(None)`.
#[derive(Debug, Clone, PartialEq, Eq)]
pub struct IndexError {
    pub kind: IndexErrorKind,
    /// Human-readable detail (which binary, which index file, which deadline).
    pub detail: String,
}

impl IndexError {
    /// An error of `kind` with `detail`.
    pub fn new(kind: IndexErrorKind, detail: &str) -> (r: Self)
        ensures
            r.kind == kind,
            r.detail@ == detail@,
    {
        IndexError { kind, detail: owned(detail) }
    }

    /// The toolchain would not start.
    pub fn toolchain_unavailable(detail: &str) -> (r: Self)
        ensures
            r.kind == IndexErrorKind::ToolchainUnavailable,
            r.detail@ == detail@,
    {
        Self::new(IndexErrorKind::ToolchainUnavailable, detail)
    }

    /// The index is missing.
    pub fn index_missing(detail: &str) -> (r: Self)
        ensures
            r.kind == IndexErrorKind::IndexMissing,
            r.detail@ == detail@,
    {
        Self::new(IndexErrorKind::IndexMissing, detail)
    }

    /// The lookup timed out.
    pub fn timeout(detail: &str) -> (r: Self)
        ensures
            r.kind == IndexErrorKind::Timeout,
            r.detail@ == detail@,
    {
        Self::new(IndexErrorKind::Timeout, detail)
    }
}

// ---------------------------------------------------------------------------
// The capability seam
// ---------------------------------------------------------------------------

/// The injected lookup capability. Implementors do IO; this module does not.
///
/// * `Ok(Some(decl))` — the name resolves, here is the record.
/// * `Ok(None)` — the lookup ran to completion and the name is not present in
///   the searched scope. The ONLY value that may be read as absence.
/// * `Err(IndexError)` — the lookup did not run to completion.
///
/// Each implementation states what its lookups may answer
/// (`manifest_answer_ok`, `library_answer_ok`); the contracts in this module
/// are stated over those relations, so they hold whatever it answers.
pub trait DeclarationIndex {
    /// What a manifest-tier lookup of `name` in `manifest` may answer.
    spec fn manifest_answer_ok(
        &self,
        system: FormalSystem,
        name: TextView,
        manifest: ImportManifest,
        r: Result<Option<Declaration>, IndexError>,
    ) -> bool;

    /// What a library-tier lookup of `name` may answer.
    spec fn library_answer_ok(&self, system: FormalSystem, name: TextView, r: Result<Option<Declaration>, IndexError>) -> bool;

    /// Resolve `name` restricted to `manifest`'s import scope.
    fn lookup_in_manifest(
        &self,
        system: FormalSystem,
        name: &str,
        manifest: &ImportManifest,
    ) -> (r: Result<Option<Declaration>, IndexError>)
        ensures
            self.manifest_answer_ok(system, name@, *manifest, r),
    ;

    /// Resolve `name` across the entire library for `system`.
    fn lookup_in_library(&self, system: FormalSystem, name: &str) -> (r: Result<Option<Declaration>, IndexError>)
        ensures
            self.library_answer_ok(system, name@, r),
    ;
}

// ---------------------------------------------------------------------------
// The four-valued verdict
// ---------------------------------------------------------------------------

/// The result of a declaration lookup. Four values, four actions.
#[derive(Debug, Clone, PartialEq, Eq)]
pub enum Verdict {
    /// Resolvable right now under the current imports.
    Found(Declaration),
    /// It exists — just not under this problem's import manifest.
    NotInCurrentImportScope {
        /// The declaration as the wider library knows it.
        declaration: Declaration,
        /// The module to import to bring it into scope, when known.
        add_import: Option<String>,
    },
    /// Genuinely not found anywhere we searched.
    UnknownDeclaration {
        /// The normalized name that was searched for.
        queried: String,
    },
    /// The lookup mechanism failed. Evidence of nothing.
    EnvironmentError(IndexError),
}

/// The stable tag of a verdict.
pub open spec fn verdict_tag(v: Verdict) -> Seq<char> {
    match v {
        Verdict::Found(_) => "found"@,
        Verdict::NotInCurrentImportScope { .. } => "not_in_current_import_scope"@,
        Verdict::UnknownDeclaration { .. } => "unknown_declaration"@,
        Verdict::EnvironmentError(_) => "environment_error"@,
    }
}

/// The one-line action text a verdict licenses.
pub open spec fn action_spec(v: Verdict) -> Seq<char> {
    match v {
        Verdict::Found(d) => seq!['`'] + d.name@
            + "` resolves under the current imports — use it as written."@,
        Verdict::NotInCurrentImportScope { declaration, add_import } => match add_import {
            Some(module) => seq!['`'] + declaration.name@
                + "` EXISTS in the library but is not in this problem's import scope. ADD THE IMPORT `"@
                + module@ + "` and retry. Do NOT conclude the library lacks it."@,
            None => seq!['`'] + declaration.name@
                + "` EXISTS in the library but is not in this problem's import scope. Add the import that provides it and retry. Do NOT conclude the library lacks it."@,
        },
        Verdict::UnknownDeclaration { queried } => seq!['`'] + queried@
            + "` was not found in the current scope or in the wider library. TRY ANOTHER NAME (search by statement shape or by the concept). This refutes the NAME, not the mathematical step."@,
        Verdict::EnvironmentError(e) => "The declaration lookup itself FAILED ("@ + kind_tag(e.kind)
            + ": "@ + e.detail@
            + "). This is evidence of NOTHING about whether the declaration exists. Retry the lookup or proceed without it — do NOT treat this as 'the library does not have it'."@,
    }
}

impl Verdict {
    /// Stable snake_case tag for logs and observability payloads.
    pub fn tag(&self) -> (r: &'static str)
        ensures
            r@ == verdict_tag(*self),
    {
        match self {
            Verdict::Found(_) => "found",
            Verdict::NotInCurrentImportScope { .. } => "not_in_current_import_scope",
            Verdict::UnknownDeclaration { .. } => "unknown_declaration",
            Verdict::EnvironmentError(_) => "environment_error",
        }
    }

    /// The load-bearing predicate: `true` for exactly one variant,
    /// `UnknownDeclaration`. In particular it is `false` for an
    /// environment error.
    pub fn is_evidence_of_absence(&self) -> (r: bool)
        ensures
            r == (*self is UnknownDeclaration),
    {
        match self {
            Verdict::UnknownDeclaration { .. } => true,
            _ => false,
        }
    }

    /// Whether the name is known to exist somewhere (in scope or not).
    pub fn exists_somewhere(&self) -> (r: bool)
        ensures
            r == (*self is Found || *self is NotInCurrentImportScope),
    {
        match self {
            Verdict::Found(_) | Verdict::NotInCurrentImportScope { .. } => true,
            _ => false,
        }
    }

    /// Whether this verdict licenses abandoning the name (never the branch).
    pub fn licenses_abandoning_the_name(&self) -> (r: bool)
        ensures
            r == (*self is UnknownDeclaration),
    {
        self.is_evidence_of_absence()
    }

    /// The one-line action this verdict licenses, phrased for a model prompt.
    pub fn action(&self) -> (r: String)
        ensures
            r@ == action_spec(*self),
    {
        let mut s = String::new();
        match self {
            Verdict::Found(d) => {
                push_char(&mut s, '`');
                s.append(d.name.as_str());
                s.append("` resolves under the current imports — use it as written.");
            },
            Verdict::NotInCurrentImportScope { declaration, add_import } => {
                push_char(&mut s, '`');
                s.append(declaration.name.as_str());
                match add_import {
                    Some(module) => {
                        s.append(
                            "` EXISTS in the library but is not in this problem's import scope. ADD THE IMPORT `",
                        );
                        s.append(module.as_str());
                        s.append("` and retry. Do NOT conclude the library lacks it.");
                    },
                    None => {
                        s.append(
                            "` EXISTS in the library but is not in this problem's import scope. Add the import that provides it and retry. Do NOT conclude the library lacks it.",
                        );
                    },
                }
            },
            Verdict::UnknownDeclaration { queried } => {
                push_char(&mut s, '`');
                s.append(queried.as_str());
                s.append(
                    "` was not found in the current scope or in the wider library. TRY ANOTHER NAME (search by statement shape or by the concept). This refutes the NAME, not the mathematical step.",
                );
            },
            Verdict::EnvironmentError(e) => {
                s.append("The declaration lookup itself FAILED (");
                s.append(e.kind.tag());
                s.append(": ");
                s.append(e.detail.as_str());
                s.append(
                    "). This is evidence of NOTHING about whether the declaration exists. Retry the lookup or proceed without it — do NOT treat this as 'the library does not have it'.",
                );
            },
        }
        proof {
            assert(seq!['`'] == Seq::<char>::empty().push('`'));
        }
        s
    }
}

// ---------------------------------------------------------------------------
// The lookup logic (pure)
// ---------------------------------------------------------------------------

/// The verdict a manifest-tier answer settles, if any.
pub open spec fn fast_verdict_spec(lookup: Result<Option<Declaration>, IndexError>) -> Option<
    Verdict,
> {
    match lookup {
        Err(e) => Some(Verdict::EnvironmentError(e)),
        Ok(Some(d)) => Some(Verdict::Found(d)),
        Ok(None) => None,
    }
}

/// Whether `r` is the verdict a library-tier answer yields for `queried`.
pub open spec fn library_verdict_holds(
    lookup: Result<Option<Declaration>, IndexError>,
    queried: Seq<char>,
    r: Verdict,
) -> bool {
    match lookup {
        Err(e) => r == Verdict::EnvironmentError(e),
        Ok(Some(d)) => match r {
            Verdict::NotInCurrentImportScope { declaration, add_import } => declaration == d
                && opt_view(add_import) == effective_module_spec(d),
            _ => false,
        },
        Ok(None) => match r {
            Verdict::UnknownDeclaration { queried: q } => q@ == queried,
            _ => false,
        },
    }
}

/// Decide from a manifest-tier answer: an error short-circuits into
/// `EnvironmentError`, a hit is `Found`, and a miss is UNDECIDED (`None`),
/// never a finding.
pub fn fast_verdict(lookup: Result<Option<Declaration>, IndexError>) -> (r: Option<Verdict>)
    ensures
        r == fast_verdict_spec(lookup),
{
    match lookup {
        Err(e) => Some(Verdict::EnvironmentError(e)),
        Ok(Some(decl)) => Some(Verdict::Found(decl)),
        Ok(None) => None,
    }
}

/// Decide from a library-tier answer, reached only after the manifest tier ran
/// cleanly and found nothing. Only here is absence concluded: both tiers
/// completed and neither has the name.
pub fn library_verdict(lookup: Result<Option<Declaration>, IndexError>, queried: String) -> (r:
    Verdict)
    ensures
        library_verdict_holds(lookup, queried@, r),
{
    match lookup {
        Err(e) => Verdict::EnvironmentError(e),
        Ok(Some(declaration)) => {
            let add_import = declaration.effective_module();
            Verdict::NotInCurrentImportScope { declaration, add_import }
        },
        Ok(None) => Verdict::UnknownDeclaration { queried },
    }
}

/// **Fast path**: consult only the current import manifest. `None` means
/// UNDECIDED — this function can never conclude absence.
pub fn fast_check<I: DeclarationIndex + ?Sized>(
    index: &I,
    system: FormalSystem,
    name: &str,
    manifest: &ImportManifest,
) -> (r: Option<Verdict>)
    ensures
        r matches Some(v) ==> (v is Found || v is EnvironmentError),
        exists|m: Result<Option<Declaration>, IndexError>|
            #[trigger] index.manifest_answer_ok(system, normalize_spec(system, name@), *manifest, m) && r
                == fast_verdict_spec(m),
{
    let normalized = normalize(system, name);
    fast_verdict(index.lookup_in_manifest(system, normalized.as_str(), manifest))
}

/// Whether `r` is the deep verdict for the manifest tier's answer `manifest`
/// and the library tier's answer `library`, for the normalized query
/// `queried`: a decided manifest answer settles it and the library is not
/// asked (`library` is `None`); otherwise the library's answer decides.
pub open spec fn deep_verdict_holds(
    manifest: Result<Option<Declaration>, IndexError>,
    library: Option<Result<Option<Declaration>, IndexError>>,
    queried: Seq<char>,
    r: Verdict,
) -> bool {
    match fast_verdict_spec(manifest) {
        Some(v) => library is None && r == v,
        None => match library {
            Some(l) => library_verdict_holds(l, queried, r),
            None => false,
        },
    }
}

/// Decide from both tiers' answers (see [`deep_verdict_holds`]); the library
/// answer is present exactly when the manifest tier left the name undecided.
pub fn deep_verdict(
    manifest: Result<Option<Declaration>, IndexError>,
    library: Option<Result<Option<Declaration>, IndexError>>,
    queried: String,
) -> (r: Verdict)
    requires
        (fast_verdict_spec(manifest) is None) == (library is Some),
    ensures
        deep_verdict_holds(manifest, library, queried@, r),
{
    match fast_verdict(manifest) {
        Some(v) => v,
        None => match library {
            Some(l) => library_verdict(l, queried),
            None => {
                assert(false);
                Verdict::UnknownDeclaration { queried }
            },
        },
    }
}

/// **Deep path**: the manifest tier first, then, only when it found nothing
/// and did not fail, the wider library. The only function that may return
/// `UnknownDeclaration`, and only with the normalized query, after both
/// tiers completed empty; an error in either tier is an `EnvironmentError`.
pub fn deep_check<I: DeclarationIndex + ?Sized>(
    index: &I,
    system: FormalSystem,
    name: &str,
    manifest: &ImportManifest,
) -> (r: Verdict)
    ensures
        exists|m: Result<Option<Declaration>, IndexError>, l: Option<Result<Option<Declaration>, IndexError>>|
            #[trigger] deep_verdict_holds(m, l, normalize_spec(system, name@), r) && index.manifest_answer_ok(
                system,
                normalize_spec(system, normalize_spec(system, name@)),
                *manifest,
                m,
            ) && (l matches Some(la) ==> index.library_answer_ok(system, normalize_spec(system, name@), la)),
        r is Found || r is EnvironmentError || exists|l: Result<Option<Declaration>, IndexError>|
            library_verdict_holds(l, normalize_spec(system, name@), r),
        r matches Verdict::UnknownDeclaration { queried } ==> queried@ == normalize_spec(
            system,
            name@,
        ),
        r matches Verdict::NotInCurrentImportScope { declaration, add_import } ==> opt_view(
            add_import,
        ) == effective_module_spec(declaration),
{
    let normalized = normalize(system, name);
    let key = normalize(system, normalized.as_str());
    let m = index.lookup_in_manifest(system, key.as_str(), manifest);
    let ghost gm = m;
    let l = match &m {
        Ok(None) => Some(index.lookup_in_library(system, normalized.as_str())),
        _ => None,
    };
    let ghost gl = l;
    let r = deep_verdict(m, l, normalized);
    assert(deep_verdict_holds(gm, gl, normalize_spec(system, name@), r));
    assert(index.manifest_answer_ok(system, normalize_spec(system, normalize_spec(system, name@)), *manifest, gm));
    r
}

/// The detail of the environment error reported when the manifest tier left
/// `name` undecided and the library was not consulted.
pub open spec fn not_consulted_detail(system: FormalSystem, name: Seq<char>) -> Seq<char> {
    seq!['`'] + normalize_spec(system, name)
        + "` is not in the current import scope, and the wider-library index was not consulted (deep_check disabled). No conclusion about existence is available."@
}

/// Whether `r` is what a check without the library tier reports for the fast
/// path's answer `fast`: a decided answer as it is; an undecided one as an
/// `IndexMissing` environment error, since nothing was looked up.
pub open spec fn shallow_verdict_holds(fast: Option<Verdict>, system: FormalSystem, name: Seq<char>, r: Verdict) -> bool {
    match fast {
        Some(v) => r == v,
        None => r matches Verdict::EnvironmentError(e) && e.kind == IndexErrorKind::IndexMissing && e.detail@
            == not_consulted_detail(system, name),
    }
}

/// Decide without the library tier from the fast path's answer (see
/// [`shallow_verdict_holds`]).
pub fn shallow_verdict(fast: Option<Verdict>, system: FormalSystem, name: &str) -> (r: Verdict)
    ensures
        shallow_verdict_holds(fast, system, name@, r),
{
    match fast {
        Some(verdict) => verdict,
        None => {
            let mut detail = String::new();
            push_char(&mut detail, '`');
            let n = normalize(system, name);
            detail.append(n.as_str());
            detail.append(
                "` is not in the current import scope, and the wider-library index was not consulted (deep_check disabled). No conclusion about existence is available.",
            );
            proof {
                assert(seq!['`'] == Seq::<char>::empty().push('`'));
            }
            Verdict::EnvironmentError(IndexError { kind: IndexErrorKind::IndexMissing, detail })
        },
    }
}

/// Escalating wrapper: run [`fast_check`], and consult the library only when
/// `deep` is set and the fast path came back undecided. With `deep == false`
/// an undecided fast path is reported as an `IndexMissing` environment error —
/// we did not look, so we have no evidence either way.
pub fn check<I: DeclarationIndex + ?Sized>(
    index: &I,
    system: FormalSystem,
    name: &str,
    manifest: &ImportManifest,
    deep: bool,
) -> (r: Verdict)
    ensures
        !deep ==> (r is Found || r is EnvironmentError),
        !deep ==> exists|m: Result<Option<Declaration>, IndexError>|
            #[trigger] index.manifest_answer_ok(system, normalize_spec(system, name@), *manifest, m)
                && shallow_verdict_holds(fast_verdict_spec(m), system, name@, r),
        deep ==> exists|m: Result<Option<Declaration>, IndexError>, l: Option<Result<Option<Declaration>, IndexError>>|
            #[trigger] deep_verdict_holds(m, l, normalize_spec(system, name@), r) && index.manifest_answer_ok(
                system,
                normalize_spec(system, normalize_spec(system, name@)),
                *manifest,
                m,
            ) && (l matches Some(la) ==> index.library_answer_ok(system, normalize_spec(system, name@), la)),
        deep ==> (r is Found || r is EnvironmentError || exists|l: Result<Option<Declaration>, IndexError>|
            library_verdict_holds(l, normalize_spec(system, name@), r)),
        deep ==> (r matches Verdict::UnknownDeclaration { queried } ==> queried@ == normalize_spec(
            system,
            name@,
        )),
        deep ==> (r matches Verdict::NotInCurrentImportScope { declaration, add_import } ==> opt_view(
            add_import,
        ) == effective_module_spec(declaration)),
{
    if deep {
        return deep_check(index, system, name, manifest);
    }
    let fast = fast_check(index, system, name, manifest);
    shallow_verdict(fast, system, name)
}

// ---------------------------------------------------------------------------
// Laws
// ---------------------------------------------------------------------------

/// Escalating never changes a decided answer: whenever the manifest tier's
/// answer decides, that verdict is what the fast path reports, and it is never
/// evidence of absence.
pub proof fn lemma_fast_decisions_are_never_absence(lookup: Result<Option<Declaration>, IndexError>)
    ensures
        fast_verdict_spec(lookup) matches Some(v) ==> !(v is UnknownDeclaration),
        lookup is Err ==> fast_verdict_spec(lookup) is Some,
{
}

/// An infrastructure failure in the library tier is never read as absence.
pub proof fn lemma_library_error_is_never_absence(
    e: IndexError,
    queried: Seq<char>,
    r: Verdict,
)
    requires
        library_verdict_holds(Err(e), queried, r),
    ensures
        !(r is UnknownDeclaration),
        r == Verdict::EnvironmentError(e),
{
}


/// Whether `a` is `b` with some characters deleted (a subsequence).
pub open spec fn is_subseq(a: Seq<char>, b: Seq<char>) -> bool
    decreases b.len(),
{
    if a.len() == 0 {
        true
    } else if b.len() == 0 {
        false
    } else {
        (a[0] == b[0] && is_subseq(a.drop_first(), b.drop_first())) || is_subseq(a, b.drop_first())
    }
}

/// Whether `t` is a contiguous piece of `s`.
pub open spec fn is_infix(t: Seq<char>, s: Seq<char>) -> bool {
    exists|a: int, b: int| 0 <= a <= b <= s.len() && t == s.subrange(a, b)
}

proof fn lemma_subseq_of_subrange(a: Seq<char>, b: Seq<char>, i: int, j: int)
    requires
        0 <= i <= j <= b.len(),
        is_subseq(a, b.subrange(i, j)),
    ensures
        is_subseq(a, b),
    decreases b.len(), a.len(),
{
    if a.len() > 0 {
        if i > 0 {
            assert(b.subrange(i, j) == b.drop_first().subrange(i - 1, j - 1));
            lemma_subseq_of_subrange(a, b.drop_first(), i - 1, j - 1);
        } else {
            let t = b.subrange(0, j);
            assert(j > 0);
            assert(t.drop_first() == b.drop_first().subrange(0, j - 1));
            if a[0] == t[0] && is_subseq(a.drop_first(), t.drop_first()) {
                lemma_subseq_of_subrange(a.drop_first(), b.drop_first(), 0, j - 1);
                assert(a[0] == b[0]);
            } else {
                lemma_subseq_of_subrange(a, b.drop_first(), 0, j - 1);
            }
        }
    }
}

proof fn lemma_rtrim_prefix(s: Seq<char>, p: spec_fn(char) -> bool)
    ensures
        rtrim(s, p).len() <= s.len(),
        rtrim(s, p) == s.take(rtrim(s, p).len() as int),
        rtrim(s, p).len() > 0 ==> !p(rtrim(s, p).last()),
    decreases s.len(),
{
    if s.len() > 0 && p(s.last()) {
        lemma_rtrim_prefix(s.drop_last(), p);
        assert(s.drop_last().take(rtrim(s, p).len() as int) == s.take(rtrim(s, p).len() as int));
    }
}

proof fn lemma_trim_infix(s: Seq<char>, p: spec_fn(char) -> bool)
    ensures
        is_infix(trim(s, p), s),
        trim(s, p).len() <= s.len(),
        trim(s, p).len() > 0 ==> !p(trim(s, p)[0]) && !p(trim(s, p).last()),
{
    crate::text::lemma_ltrim_suffix(s, p);
    let l = ltrim(s, p);
    lemma_rtrim_prefix(l, p);
    let t = trim(s, p);
    let a = s.len() - l.len();
    assert(t == s.subrange(a, a + t.len()));
    if t.len() > 0 {
        assert(t[0] == l[0]);
    }
}

proof fn lemma_infix_trans(t: Seq<char>, u: Seq<char>, s: Seq<char>)
    requires
        is_infix(t, u),
        is_infix(u, s),
    ensures
        is_infix(t, s),
{
    let (a, b) = choose|a: int, b: int| 0 <= a <= b <= u.len() && t == u.subrange(a, b);
    let (c, d) = choose|c: int, d: int| 0 <= c <= d <= s.len() && u == s.subrange(c, d);
    assert(t == s.subrange(c + a, c + b));
}

proof fn lemma_strip_pair_infix(s: Seq<char>, open: char, close: char)
    ensures
        is_infix(strip_pair(s, open, close), s),
{
    if s.len() >= 2 && s[0] == open && s.last() == close {
        assert(strip_pair(s, open, close) == s.subrange(1, s.len() - 1));
    } else {
        assert(s == s.subrange(0, s.len() as int));
    }
}

proof fn lemma_unwrap_all_infix(s: Seq<char>)
    ensures
        is_infix(unwrap_all(s), s),
    decreases s.len(),
{
    let q = class_pred(CharClass::Quoting);
    let t0 = trim(s, q);
    let t1 = strip_pair(t0, '‹', '›');
    let t = unwrap_step(s);
    lemma_trim_infix(s, q);
    lemma_strip_pair_infix(t0, '‹', '›');
    lemma_strip_pair_infix(t1, '«', '»');
    lemma_infix_trans(t1, t0, s);
    lemma_infix_trans(t, t1, s);
    if t.len() < s.len() {
        lemma_unwrap_all_infix(t);
        lemma_infix_trans(unwrap_all(t), t, s);
    } else {
        assert(s == s.subrange(0, s.len() as int));
    }
}

proof fn lemma_collapse_shape(t: Seq<char>, sep: char, ls: bool)
    ensures
        ({
            let c = collapse(t, sep, ls);
            &&& is_subseq(c, t)
            &&& forall|i: int| 0 <= i < c.len() - 1 ==> !(#[trigger] c[i] == sep && c[i + 1] == sep)
            &&& ls && c.len() > 0 ==> c[0] != sep
            &&& t.len() > 0 && t[0] != sep ==> c.len() > 0 && c[0] == t[0]
            &&& t.len() > 0 && t.last() != sep ==> c.len() > 0 && c.last() == t.last()
        }),
    decreases t.len(),
{
    if t.len() > 0 {
        let rest = t.drop_first();
        let c = collapse(t, sep, ls);
        if t[0] == sep {
            lemma_collapse_shape(rest, sep, true);
            let cr = collapse(rest, sep, true);
            if ls {
                assert(c == cr);
            } else {
                assert(c == seq![sep] + cr);
                assert(c.drop_first() == cr);
                assert forall|i: int| 0 <= i < c.len() - 1 implies !(#[trigger] c[i] == sep && c[i + 1] == sep) by {
                    if i > 0 {
                        assert(c[i] == cr[i - 1] && c[i + 1] == cr[i]);
                    } else {
                        assert(c[1] == cr[0]);
                    }
                }
            }
            if t.last() != sep {
                assert(rest.last() == t.last());
                assert(rest.len() > 0);
            }
        } else {
            lemma_collapse_shape(rest, sep, false);
            let cr = collapse(rest, sep, false);
            assert(c == seq![t[0]] + cr);
            assert(c.drop_first() == cr);
            assert forall|i: int| 0 <= i < c.len() - 1 implies !(#[trigger] c[i] == sep && c[i + 1] == sep) by {
                if i > 0 {
                    assert(c[i] == cr[i - 1] && c[i + 1] == cr[i]);
                }
            }
            if t.last() != sep && rest.len() > 0 {
                assert(rest.last() == t.last());
            }
        }
    }
}

/// A normalized name is the raw name with characters deleted, never new
/// ones; for a qualified system it neither starts nor ends with the
/// separator, and never holds two separators in a row.
pub proof fn lemma_normalize_shape(system: FormalSystem, raw: Seq<char>)
    ensures
        is_subseq(normalize_spec(system, raw), raw),
        separator_spec(system) matches Some(sep) ==> {
            let n = normalize_spec(system, raw);
            &&& n.len() > 0 ==> n[0] != sep && n.last() != sep
            &&& forall|i: int| 0 <= i < n.len() - 1 ==> !(#[trigger] n[i] == sep && n[i + 1] == sep)
        },
{
    let w = class_pred(CharClass::White);
    let t0 = trim(raw, w);
    let s = unwrap_all(t0);
    lemma_trim_infix(raw, w);
    lemma_unwrap_all_infix(t0);
    lemma_infix_trans(s, t0, raw);
    match separator_spec(system) {
        None => {
            let (a, b) = choose|a: int, b: int| 0 <= a <= b <= raw.len() && s == raw.subrange(a, b);
            lemma_subseq_refl(s);
            lemma_subseq_of_subrange(s, raw, a, b);
        },
        Some(sep) => {
            let p = class_pred(CharClass::Only(sep));
            let t = trim(s, p);
            lemma_trim_infix(s, p);
            lemma_infix_trans(t, s, raw);
            lemma_collapse_shape(t, sep, false);
            let (a, b) = choose|a: int, b: int| 0 <= a <= b <= raw.len() && t == raw.subrange(a, b);
            lemma_subseq_of_subrange(normalize_spec(system, raw), raw, a, b);
            if t.len() > 0 {
                assert(!p(t[0]) && !p(t.last()));
            }
        },
    }
}

proof fn lemma_subseq_refl(s: Seq<char>)
    ensures
        is_subseq(s, s),
    decreases s.len(),
{
    if s.len() > 0 {
        lemma_subseq_refl(s.drop_first());
    }
}

proof fn lemma_sorted_tail(s: Seq<Seq<char>>, x: Seq<char>)
    requires
        strictly_sorted(s),
        s.len() > 0,
    ensures
        strictly_sorted(s.drop_first()),
        s.drop_first().contains(x) <==> (s.contains(x) && x != s[0]),
{
    let t = s.drop_first();
    assert forall|i: int, j: int| 0 <= i < j < t.len() implies seq_lt(#[trigger] t[i], #[trigger] t[j]) by {
        assert(t[i] == s[i + 1] && t[j] == s[j + 1]);
    }
    if t.contains(x) {
        let k = choose|k: int| 0 <= k < t.len() && t[k] == x;
        assert(s[k + 1] == x);
        assert(seq_lt(s[0], s[k + 1]));
        lemma_lt_irreflexive(x);
    }
    if s.contains(x) && x != s[0] {
        let k = choose|k: int| 0 <= k < s.len() && s[k] == x;
        assert(k > 0);
        assert(t[k - 1] == x);
    }
}

/// Two strictly sorted sequences of names holding the same names are equal.
proof fn lemma_sorted_unique(s1: Seq<Seq<char>>, s2: Seq<Seq<char>>)
    requires
        strictly_sorted(s1),
        strictly_sorted(s2),
        forall|x: Seq<char>| s1.contains(x) <==> s2.contains(x),
    ensures
        s1 == s2,
    decreases s1.len() + s2.len(),
{
    if s1.len() == 0 {
        if s2.len() > 0 {
            assert(s2.contains(s2[0]));
        }
        assert(s1 =~= s2);
    } else {
        assert(s1.contains(s1[0]));
        assert(s2.len() > 0);
        assert(s2.contains(s2[0]));
        let k = choose|k: int| 0 <= k < s1.len() && s1[k] == s2[0];
        let m = choose|m: int| 0 <= m < s2.len() && s2[m] == s1[0];
        if k > 0 && m > 0 {
            assert(seq_lt(s1[0], s1[k]));
            assert(seq_lt(s2[0], s2[m]));
            lemma_lt_transitive(s1[0], s2[0], s1[0]);
            lemma_lt_irreflexive(s1[0]);
        } else if k > 0 {
            assert(s2[0] == s1[0]);
        }
        assert(s1[0] == s2[0]);
        assert forall|x: Seq<char>| s1.drop_first().contains(x) <==> s2.drop_first().contains(x) by {
            lemma_sorted_tail(s1, x);
            lemma_sorted_tail(s2, x);
        }
        lemma_sorted_tail(s1, s1[0]);
        lemma_sorted_tail(s2, s2[0]);
        lemma_sorted_unique(s1.drop_first(), s2.drop_first());
        assert(s1 =~= seq![s1[0]] + s1.drop_first());
        assert(s2 =~= seq![s2[0]] + s2.drop_first());
    }
}

/// A manifest depends only on the set of normalized imports it was built
/// from: two lists that normalize to the same non-empty names, whatever their
/// order and repetitions, give manifests with the same imports.
pub proof fn lemma_manifest_order_free(
    system: FormalSystem,
    a: Seq<&str>,
    b: Seq<&str>,
    ma: ImportManifest,
    mb: ImportManifest,
)
    requires
        strictly_sorted(ma.imports_spec()),
        strictly_sorted(mb.imports_spec()),
        forall|x: Seq<char>| ma.imports_spec().contains(x) <==> is_normalized_import(system, a, x),
        forall|x: Seq<char>| mb.imports_spec().contains(x) <==> is_normalized_import(system, b, x),
        forall|x: Seq<char>| is_normalized_import(system, a, x) <==> is_normalized_import(system, b, x),
    ensures
        ma.imports_spec() == mb.imports_spec(),
{
    lemma_sorted_unique(ma.imports_spec(), mb.imports_spec());
}
} // verus!
