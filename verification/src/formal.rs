//! The system-agnostic formal-method vocabulary: which proof assistant a proof
//! object belongs to, and the fixed per-system facts the checks rely on.
use vstd::prelude::*;

use crate::text::{
    char_is_alphanumeric, char_is_whitespace, chars_of, class_pred, contains_at, contains_spec,
    find_class, first_where, ident_char, is_alnum, is_white, join, lemma_join_push, lemma_line_window,
    line_windows, line_windows_of, lines_spec, lowercase, ltrim, normalize_ws, normalize_ws_spec, owned,
    push_char, skip_class, starts_with_at, string_of, string_of_range, to_lowercase, trim, trim_class,
    white_pred, window_eq, word_list, words, words_view, CharClass, concat_words, is_word_char,
    ascii_lower, ascii_lower_range, find_sub, rskip_class, rtrim, chars_eq,
};

verus! {

/// Which formal system a proof object belongs to.
#[derive(Debug, Clone, Copy, PartialEq, Eq, Structural)]
pub enum FormalSystem {
    Lean,
    Rocq,
    Isabelle,
    /// Candle — the verified HOL Light kernel running on CakeML.
    Candle,
    /// Agda, an intuitionistic Martin-Lof dependent type theory checker.
    Agda,
    /// Metamath's tiny substitution kernel and explicit proof language.
    Metamath,
}

/// The canonical lowercase tag of a system.
pub open spec fn system_tag(s: FormalSystem) -> Seq<char> {
    match s {
        FormalSystem::Lean => "lean"@,
        FormalSystem::Rocq => "rocq"@,
        FormalSystem::Isabelle => "isabelle"@,
        FormalSystem::Candle => "candle"@,
        FormalSystem::Agda => "agda"@,
        FormalSystem::Metamath => "metamath"@,
    }
}

/// The views of a sequence of strings.
pub open spec fn views(v: Seq<String>) -> Seq<Seq<char>> {
    v.map_values(|s: String| s@)
}

/// The trusted-axiom / oracle whitelist of a system.
pub open spec fn whitelist_spec(s: FormalSystem) -> Seq<Seq<char>> {
    match s {
        FormalSystem::Lean => seq!["propext"@, "Classical.choice"@, "Quot.sound"@],
        FormalSystem::Rocq => seq!["Closed under the global context"@],
        FormalSystem::Candle => seq!["ETA_AX"@, "SELECT_AX"@, "INFINITY_AX"@],
        _ => Seq::empty(),
    }
}

/// The source-file extension of a system.
pub open spec fn extension_spec(s: FormalSystem) -> Seq<char> {
    match s {
        FormalSystem::Lean => ".lean"@,
        FormalSystem::Rocq => ".v"@,
        FormalSystem::Isabelle => ".thy"@,
        FormalSystem::Candle => ".ml"@,
        FormalSystem::Agda => ".agda"@,
        FormalSystem::Metamath => ".mm"@,
    }
}

/// The default corpus imports of a system.
pub open spec fn default_imports_spec(s: FormalSystem) -> Seq<Seq<char>> {
    match s {
        FormalSystem::Lean => seq!["Mathlib"@],
        FormalSystem::Rocq => seq!["Stdlib"@, "mathcomp.ssreflect.ssreflect"@],
        FormalSystem::Isabelle => seq!["Main"@],
        FormalSystem::Candle => seq!["hol_light"@],
        FormalSystem::Agda => seq!["Agda.Builtin"@],
        FormalSystem::Metamath => seq!["set.mm"@],
    }
}

/// Citable trusted-base profile for a system's underlying foundation.
#[derive(Debug, Clone, PartialEq, Eq)]
pub struct FoundationProfile {
    /// Human-readable name of the underlying foundation.
    pub foundation: &'static str,
    /// Logic is classical by default (vs. intuitionistic).
    pub classical: bool,
    /// The axiom of choice is available by default.
    pub choice: bool,
    /// Rich enough to encode "all of mathematics".
    pub all_math: bool,
    /// Primitive-notion count where the foundation is studied directly.
    pub primitive_notions: Option<u32>,
    /// Short provenance / caveat note.
    pub note: &'static str,
}

/// The boolean and numeric facts of a system's foundation profile:
/// `(classical, choice, all_math, primitive_notions)`.
pub open spec fn profile_facts(s: FormalSystem) -> (bool, bool, bool, Option<u32>) {
    match s {
        FormalSystem::Lean => (true, true, true, None),
        FormalSystem::Rocq => (false, false, true, None),
        FormalSystem::Isabelle => (true, true, true, None),
        FormalSystem::Candle => (true, true, true, Some(25)),
        FormalSystem::Agda => (false, false, true, None),
        FormalSystem::Metamath => (true, true, true, None),
    }
}

/// The foundation named by a system's profile.
pub open spec fn profile_foundation(s: FormalSystem) -> Seq<char> {
    match s {
        FormalSystem::Lean => "Calculus of Inductive Constructions (type theory)"@,
        FormalSystem::Rocq => "Calculus of Inductive Constructions (type theory)"@,
        FormalSystem::Isabelle => "Isabelle/HOL (Church higher-order logic)"@,
        FormalSystem::Candle => "HOL Light (Church higher-order logic)"@,
        FormalSystem::Agda => "Martin-Lof dependent type theory (Agda)"@,
        FormalSystem::Metamath => "Metamath set theory / ZFC-style axiomatic foundation"@,
    }
}

/// Build a vector of owned strings from literals.
fn owned_all(items: &[&str]) -> (r: Vec<String>)
    ensures
        views(r@) == items@.map_values(|s: &str| s@),
{
    let mut r: Vec<String> = Vec::new();
    let mut i: usize = 0;
    while i < items.len()
        invariant
            0 <= i <= items@.len(),
            r@.len() == i,
            forall|j: int| 0 <= j < i ==> #[trigger] r@[j]@ == items@[j]@,
        decreases items@.len() - i,
    {
        r.push(owned(items[i]));
        i = i + 1;
    }
    assert(views(r@) =~= items@.map_values(|s: &str| s@));
    r
}

impl FormalSystem {
    /// Canonical lowercase tag, matching `backend` strings.
    pub fn as_str(self) -> (r: &'static str)
        ensures
            r@ == system_tag(self),
    {
        match self {
            FormalSystem::Lean => "lean",
            FormalSystem::Rocq => "rocq",
            FormalSystem::Isabelle => "isabelle",
            FormalSystem::Candle => "candle",
            FormalSystem::Agda => "agda",
            FormalSystem::Metamath => "metamath",
        }
    }

    /// Trusted-axiom / oracle whitelist. Anything a proof depends on that is
    /// NOT in this set makes the axiom audit fail closed.
    pub fn axiom_whitelist(self) -> (r: Vec<String>)
        ensures
            views(r@) == whitelist_spec(self),
    {
        let r = match self {
            FormalSystem::Lean => owned_all(&["propext", "Classical.choice", "Quot.sound"]),
            FormalSystem::Rocq => owned_all(&["Closed under the global context"]),
            FormalSystem::Candle => owned_all(&["ETA_AX", "SELECT_AX", "INFINITY_AX"]),
            _ => Vec::new(),
        };
        assert(views(r@) =~= whitelist_spec(self));
        r
    }

    /// Source-file extension for generated proofs.
    pub fn source_extension(self) -> (r: &'static str)
        ensures
            r@ == extension_spec(self),
    {
        match self {
            FormalSystem::Lean => ".lean",
            FormalSystem::Rocq => ".v",
            FormalSystem::Isabelle => ".thy",
            FormalSystem::Candle => ".ml",
            FormalSystem::Agda => ".agda",
            FormalSystem::Metamath => ".mm",
        }
    }

    /// Default corpus imports the model may draw premises from.
    pub fn default_imports(self) -> (r: Vec<String>)
        ensures
            views(r@) == default_imports_spec(self),
    {
        let r = match self {
            FormalSystem::Lean => owned_all(&["Mathlib"]),
            FormalSystem::Rocq => owned_all(&["Stdlib", "mathcomp.ssreflect.ssreflect"]),
            FormalSystem::Isabelle => owned_all(&["Main"]),
            FormalSystem::Candle => owned_all(&["hol_light"]),
            FormalSystem::Agda => owned_all(&["Agda.Builtin"]),
            FormalSystem::Metamath => owned_all(&["set.mm"]),
        };
        assert(views(r@) =~= default_imports_spec(self));
        r
    }

    /// Citable trusted-base facts about the foundation each backend rests on
    /// (Wiedijk 2006 for the primitive-notion counts).
    pub fn foundation_profile(self) -> (r: FoundationProfile)
        ensures
            (r.classical, r.choice, r.all_math, r.primitive_notions) == profile_facts(self),
            r.foundation@ == profile_foundation(self),
            r.note@.len() > 0,
    {
        let r = match self {
            FormalSystem::Lean => FoundationProfile {
                foundation: "Calculus of Inductive Constructions (type theory)",
                classical: true,
                choice: true,
                all_math: true,
                primitive_notions: None,
                note: "descendant of CoC/ECC (Wiedijk 2006); classical logic + choice are opt-in axioms, not the default logic",
            },
            FormalSystem::Rocq => FoundationProfile {
                foundation: "Calculus of Inductive Constructions (type theory)",
                classical: false,
                choice: false,
                all_math: true,
                primitive_notions: None,
                note: "descendant of CoC/ECC (Wiedijk 2006); intuitionistic and choice-free by default",
            },
            FormalSystem::Isabelle => FoundationProfile {
                foundation: "Isabelle/HOL (Church higher-order logic)",
                classical: true,
                choice: true,
                all_math: true,
                primitive_notions: None,
                note: "Church HOL, same lineage as HOL Light; Wiedijk 2006 studied the minimal Pure meta-logic (not all-math) apart from the full object logic",
            },
            FormalSystem::Candle => FoundationProfile {
                foundation: "HOL Light (Church higher-order logic)",
                classical: true,
                choice: true,
                all_math: true,
                primitive_notions: Some(25),
                note: "Wiedijk 2006 `holl.aut`: 25 primitive notions, the simplest serious foundation by concept count; axioms ETA_AX / SELECT_AX / INFINITY_AX (= our axiom_whitelist)",
            },
            FormalSystem::Agda => FoundationProfile {
                foundation: "Martin-Lof dependent type theory (Agda)",
                classical: false,
                choice: false,
                all_math: true,
                primitive_notions: None,
                note: "constructive dependent type theory; Agda postulates are rejected by the source gate unless explicitly profiled",
            },
            FormalSystem::Metamath => FoundationProfile {
                foundation: "Metamath set theory / ZFC-style axiomatic foundation",
                classical: true,
                choice: true,
                all_math: true,
                primitive_notions: None,
                note: "explicit substitution proofs checked by the Metamath kernel; database foundation depends on the loaded .mm corpus",
            },
        };
        proof {
            reveal_strlit("descendant of CoC/ECC (Wiedijk 2006); classical logic + choice are opt-in axioms, not the default logic");
            reveal_strlit("descendant of CoC/ECC (Wiedijk 2006); intuitionistic and choice-free by default");
            reveal_strlit("Church HOL, same lineage as HOL Light; Wiedijk 2006 studied the minimal Pure meta-logic (not all-math) apart from the full object logic");
            reveal_strlit("Wiedijk 2006 `holl.aut`: 25 primitive notions, the simplest serious foundation by concept count; axioms ETA_AX / SELECT_AX / INFINITY_AX (= our axiom_whitelist)");
            reveal_strlit("constructive dependent type theory; Agda postulates are rejected by the source gate unless explicitly profiled");
            reveal_strlit("explicit substitution proofs checked by the Metamath kernel; database foundation depends on the loaded .mm corpus");
        }
        r
    }
}

impl Default for FormalSystem {
    fn default() -> (r: Self)
        ensures
            r == FormalSystem::Lean,
    {
        FormalSystem::Lean
    }
}


// ===========================================================================
// Multi-system comment stripping
// ===========================================================================

/// The two-character closer a block-comment opener at `c`, `nx` expects:
/// `(* *)`, `/- -/`, `{- -}` or `$( $)`.
pub open spec fn block_closer_spec(c: char, nx: Option<char>) -> Option<(char, char)> {
    if c == '(' && nx == Some('*') {
        Some(('*', ')'))
    } else if c == '/' && nx == Some('-') {
        Some(('-', '/'))
    } else if c == '{' && nx == Some('-') {
        Some(('-', '}'))
    } else if c == '$' && nx == Some('(') {
        Some(('$', ')'))
    } else {
        None
    }
}

/// Exec [`block_closer_spec`].
fn block_closer(c: char, nx: Option<char>) -> (r: Option<(char, char)>)
    ensures
        r == block_closer_spec(c, nx),
{
    if c == '(' && nx == Some('*') {
        Some(('*', ')'))
    } else if c == '/' && nx == Some('-') {
        Some(('-', '/'))
    } else if c == '{' && nx == Some('-') {
        Some(('-', '}'))
    } else if c == '$' && nx == Some('(') {
        Some(('$', ')'))
    } else {
        None
    }
}

/// The position just past the first `#-}` at or after `from`.
pub open spec fn pragma_end_spec(s: Seq<char>, from: int) -> Option<int>
    decreases s.len() - from,
{
    if from < 0 || from + 2 >= s.len() {
        None
    } else if s[from] == '#' && s[from + 1] == '-' && s[from + 2] == '}' {
        Some(from + 3)
    } else {
        pragma_end_spec(s, from + 1)
    }
}

/// The comment-stripped text of `s[i..]` given the stack of expected
/// block-comment closers and whether a line comment is open. Comments become
/// spaces (newlines kept); a closed Agda pragma `{-# … #-}` outside comments
/// is copied verbatim; line comments start at `--` or `//`.
pub open spec fn strip_all_from(s: Seq<char>, i: int, stack: Seq<(char, char)>, in_line: bool) -> Seq<char>
    decreases s.len() - i,
{
    if i < 0 || i >= s.len() {
        Seq::empty()
    } else {
        let c = s[i];
        let nx: Option<char> = if i + 1 < s.len() { Some(s[i + 1]) } else { None };
        if in_line {
            if c == '\n' {
                seq!['\n'] + strip_all_from(s, i + 1, stack, false)
            } else {
                seq![' '] + strip_all_from(s, i + 1, stack, true)
            }
        } else if stack.len() > 0 {
            let (a, b) = stack.last();
            if c == a && nx == Some(b) {
                seq![' ', ' '] + strip_all_from(s, i + 2, stack.drop_last(), false)
            } else {
                match block_closer_spec(c, nx) {
                    Some(cl) => seq![' ', ' '] + strip_all_from(s, i + 2, stack.push(cl), false),
                    None => seq![if c == '\n' { '\n' } else { ' ' }] + strip_all_from(s, i + 1, stack, false),
                }
            }
        } else {
            let pragma = if c == '{' && nx == Some('-') && i + 2 < s.len() && s[i + 2] == '#' {
                pragma_end_spec(s, i + 3)
            } else {
                None
            };
            match pragma {
                Some(end) => if i < end <= s.len() {
                    s.subrange(i, end) + strip_all_from(s, end, stack, false)
                } else {
                    Seq::empty()
                },
                None => match block_closer_spec(c, nx) {
                    Some(cl) => seq![' ', ' '] + strip_all_from(s, i + 2, seq![cl], false),
                    None => if (c == '-' && nx == Some('-')) || (c == '/' && nx == Some('/')) {
                        seq![' ', ' '] + strip_all_from(s, i + 2, stack, true)
                    } else {
                        seq![c] + strip_all_from(s, i + 1, stack, false)
                    },
                },
            }
        }
    }
}

/// `s` with the comments of every supported system blanked out.
pub open spec fn strip_all_spec(s: Seq<char>) -> Seq<char> {
    strip_all_from(s, 0, Seq::empty(), false)
}

proof fn lemma_pragma_end(s: Seq<char>, from: int)
    ensures
        match pragma_end_spec(s, from) {
            Some(e) => from + 3 <= e <= s.len(),
            None => true,
        },
    decreases s.len() - from,
{
    if !(from < 0 || from + 2 >= s.len()) && !(s[from] == '#' && s[from + 1] == '-' && s[from + 2] == '}') {
        lemma_pragma_end(s, from + 1);
    }
}

/// [`pragma_end_spec`] computed.
fn pragma_end(s: &Vec<char>, from: usize) -> (r: Option<usize>)
    ensures
        match r {
            Some(e) => pragma_end_spec(s@, from as int) == Some(e as int) && from + 3 <= e <= s@.len(),
            None => pragma_end_spec(s@, from as int) is None,
        },
{
    proof { lemma_pragma_end(s@, from as int); }
    let n = s.len();
    let mut j: usize = from;
    while j < n && n - j > 2
        invariant
            from <= j,
            n == s@.len(),
            pragma_end_spec(s@, from as int) == pragma_end_spec(s@, j as int),
        decreases n - j,
    {
        if s[j] == '#' && s[j + 1] == '-' && s[j + 2] == '}' {
            return Some(j + 3);
        }
        j = j + 1;
    }
    None
}

/// Blank out the comments of every supported system in `v`.
#[verifier::rlimit(40)]
fn strip_all_chars(v: &Vec<char>) -> (r: Vec<char>)
    ensures
        r@ == strip_all_spec(v@),
{
    let n = v.len();
    let mut out: Vec<char> = Vec::new();
    let mut stack: Vec<(char, char)> = Vec::new();
    let mut in_line = false;
    let mut i: usize = 0;
    assert(out@ + strip_all_spec(v@) == strip_all_spec(v@));
    while i < n
        invariant
            n == v@.len(),
            i <= n,
            out@ + strip_all_from(v@, i as int, stack@, in_line) == strip_all_spec(v@),
        decreases n - i,
    {
        let c = v[i];
        let nx: Option<char> = if i + 1 < n { Some(v[i + 1]) } else { None };
        let ghost before = out@;
        let ghost i0 = i;
        let ghost st0 = stack@;
        let ghost il0 = in_line;
        if in_line {
            if c == '\n' {
                in_line = false;
                out.push('\n');
            } else {
                out.push(' ');
            }
            i = i + 1;
            assert(strip_all_from(v@, i0 as int, st0, il0) == seq![if c == '\n' { '\n' } else { ' ' }] + strip_all_from(v@, i as int, stack@, in_line));
        } else if stack.len() > 0 {
            let (a, b) = stack[stack.len() - 1];
            assert(st0.last() == (a, b));
            if c == a && nx == Some(b) {
                stack.pop();
                out.push(' ');
                out.push(' ');
                i = i + 2;
                assert(strip_all_from(v@, i0 as int, st0, il0) == seq![' ', ' '] + strip_all_from(v@, i as int, stack@, in_line));
            } else {
                match block_closer(c, nx) {
                    Some(cl) => {
                        stack.push(cl);
                        out.push(' ');
                        out.push(' ');
                        i = i + 2;
                        assert(strip_all_from(v@, i0 as int, st0, il0) == seq![' ', ' '] + strip_all_from(v@, i as int, stack@, in_line));
                    },
                    None => {
                        out.push(if c == '\n' { '\n' } else { ' ' });
                        i = i + 1;
                        assert(strip_all_from(v@, i0 as int, st0, il0) == seq![if c == '\n' { '\n' } else { ' ' }] + strip_all_from(v@, i as int, stack@, in_line));
                    },
                }
            }
        } else {
            let mut pragma: Option<usize> = None;
            if c == '{' && nx == Some('-') && i + 2 < n && v[i + 2] == '#' {
                pragma = pragma_end(v, i + 3);
            }
            match pragma {
                Some(end) => {
                    crate::text::extend_chars(&mut out, v, i, end);
                    assert(out@ == before + v@.subrange(i as int, end as int));
                    i = end;
                    assert(strip_all_from(v@, i0 as int, st0, il0) == v@.subrange(i0 as int, end as int) + strip_all_from(v@, i as int, stack@, in_line));
                },
                None => match block_closer(c, nx) {
                    Some(cl) => {
                        stack.push(cl);
                        assert(stack@ =~= seq![cl]);
                        out.push(' ');
                        out.push(' ');
                        i = i + 2;
                        assert(strip_all_from(v@, i0 as int, st0, il0) == seq![' ', ' '] + strip_all_from(v@, i as int, stack@, in_line));
                    },
                    None => {
                        if (c == '-' && nx == Some('-')) || (c == '/' && nx == Some('/')) {
                            in_line = true;
                            out.push(' ');
                            out.push(' ');
                            i = i + 2;
                            assert(strip_all_from(v@, i0 as int, st0, il0) == seq![' ', ' '] + strip_all_from(v@, i as int, stack@, in_line));
                        } else {
                            out.push(c);
                            i = i + 1;
                            assert(strip_all_from(v@, i0 as int, st0, il0) == seq![c] + strip_all_from(v@, i as int, stack@, in_line));
                        }
                    },
                },
            }
        }
        proof {
            let delta = out@.subrange(before.len() as int, out@.len() as int);
            assert(out@ == before + delta);
            assert(strip_all_from(v@, i0 as int, st0, il0) == delta + strip_all_from(v@, i as int, stack@, in_line));
            assert(before + (delta + strip_all_from(v@, i as int, stack@, in_line)) == out@ + strip_all_from(
                v@,
                i as int,
                stack@,
                in_line,
            ));
        }
    }
    assert(out@ + Seq::<char>::empty() == out@);
    out
}

/// Blank out the comments of every supported system (`(* *)`, `/- -/`,
/// `{- -}` nesting, `$( $)`, `--` and `//` line comments) in `code`,
/// keeping closed Agda pragmas `{-# … #-}` verbatim.
pub fn strip_comments(code: &str) -> (r: String)
    ensures
        r@ == strip_all_spec(code@),
{
    let v = chars_of(code);
    let out = strip_all_chars(&v);
    string_of(&out)
}


// ===========================================================================
// Escape-hatch tokens
// ===========================================================================

/// The alias-expanded escape-hatch tokens of a system, in table order. Candle
/// and Metamath have none: their hatches are audited structurally.
pub open spec fn hatch_tokens_spec(system: FormalSystem) -> Seq<Seq<char>> {
    match system {
        FormalSystem::Lean => seq![
            "sorry"@, "sorryAx"@, "admit"@, "native_decide"@, "+native"@, "ofReduceBool"@,
            "ofReduceNat"@, "trustCompiler"@, "open private"@,
        ],
        FormalSystem::Rocq => seq![
            "Admitted"@, "admit"@, "Admit Obligations"@, "Axiom"@, "Axioms"@, "Parameter"@,
            "Parameters"@, "Conjecture"@, "Conjectures"@, "Hypothesis"@, "Hypotheses"@,
            "Variable"@, "Variables"@, "-type-in-type"@, "type_in_type"@,
            "Unset Universe Checking"@, "Unset Guard Checking"@, "Unset Positivity Checking"@,
            "bypass_check"@,
        ],
        FormalSystem::Isabelle => seq![
            "sorry"@, "oops"@, "quick_and_dirty"@, "skip_proof"@, "oracle"@, "oracles"@,
            "add_oracle"@, "axiomatization"@, "axioms"@,
        ],
        FormalSystem::Agda => seq![
            "postulate"@, "--allow-unsolved-metas"@, "--type-in-type"@, "--unsafe"@,
            "--no-termination-check"@, "--no-positivity-check"@, "--no-coverage-check"@,
            "primTrustMe"@, "{-# COMPILED"@,
        ],
        FormalSystem::Candle | FormalSystem::Metamath => Seq::empty(),
    }
}

/// The alias-expanded escape-hatch tokens of `system`, in table order.
pub fn escape_hatch_tokens(system: FormalSystem) -> (r: Vec<&'static str>)
    ensures
        r@.map_values(|t: &str| t@) == hatch_tokens_spec(system),
{
    let r: Vec<&'static str> = match system {
        FormalSystem::Lean => vec![
            "sorry", "sorryAx", "admit", "native_decide", "+native", "ofReduceBool", "ofReduceNat",
            "trustCompiler", "open private",
        ],
        FormalSystem::Rocq => vec![
            "Admitted", "admit", "Admit Obligations", "Axiom", "Axioms", "Parameter", "Parameters",
            "Conjecture", "Conjectures", "Hypothesis", "Hypotheses", "Variable", "Variables",
            "-type-in-type", "type_in_type", "Unset Universe Checking", "Unset Guard Checking",
            "Unset Positivity Checking", "bypass_check",
        ],
        FormalSystem::Isabelle => vec![
            "sorry", "oops", "quick_and_dirty", "skip_proof", "oracle", "oracles", "add_oracle",
            "axiomatization", "axioms",
        ],
        FormalSystem::Agda => vec![
            "postulate", "--allow-unsolved-metas", "--type-in-type", "--unsafe",
            "--no-termination-check", "--no-positivity-check", "--no-coverage-check",
            "primTrustMe", "{-# COMPILED",
        ],
        FormalSystem::Candle | FormalSystem::Metamath => Vec::new(),
    };
    assert(r@.map_values(|t: &str| t@) =~= hatch_tokens_spec(system));
    r
}

/// Whether token `n` occurs at `i` of `s` with an identifier boundary on
/// each end whose token character is itself an identifier character.
pub open spec fn hatch_token_at(s: Seq<char>, n: Seq<char>, i: int) -> bool {
    &&& 0 <= i
    &&& i + n.len() <= s.len()
    &&& s.subrange(i, i + n.len()) == n
    &&& (!is_word_char(n[0]) || i == 0 || !is_word_char(s[i - 1]))
    &&& (!is_word_char(n.last()) || i + n.len() == s.len() || !is_word_char(s[i + n.len()]))
}

/// Whether the non-empty token `n` occurs in `s` with boundaries.
pub open spec fn contains_hatch_spec(s: Seq<char>, n: Seq<char>) -> bool {
    n.len() > 0 && exists|i: int| hatch_token_at(s, n, i)
}

/// Whether `n` occurs in `s` with identifier boundaries (see
/// [`contains_hatch_spec`]).
fn contains_hatch_token(s: &Vec<char>, n: &Vec<char>) -> (r: bool)
    ensures
        r == contains_hatch_spec(s@, n@),
{
    let len = s.len();
    let m = n.len();
    if m == 0 || len < m {
        return false;
    }
    let head_is_word = crate::text::class_has(CharClass::Word, n[0]);
    let tail_is_word = crate::text::class_has(CharClass::Word, n[m - 1]);
    let mut i: usize = 0;
    while i <= len - m
        invariant
            0 < m <= len == s@.len(),
            m == n@.len(),
            head_is_word == is_word_char(n@[0]),
            tail_is_word == is_word_char(n@.last()),
            forall|j: int| 0 <= j < i ==> !hatch_token_at(s@, n@, j),
        decreases len - m + 1 - i,
    {
        if window_eq(s, i, n) {
            let before_ok = !head_is_word || i == 0 || !crate::text::class_has(CharClass::Word, s[i - 1]);
            let after_ok = !tail_is_word || i + m == len || !crate::text::class_has(CharClass::Word, s[i + m]);
            if before_ok && after_ok {
                assert(hatch_token_at(s@, n@, i as int));
                return true;
            }
        }
        i = i + 1;
    }
    assert forall|j: int| !hatch_token_at(s@, n@, j) by {
        if 0 <= j && j + m <= len {
            assert(j < i);
        }
    }
    false
}

/// ASCII-lowered text.
pub open spec fn ascii_lowered(s: Seq<char>) -> Seq<char> {
    s.map_values(|c: char| ascii_lower(c))
}

/// The tokens of `toks[..k]` found (lowered, with boundaries) in `text`.
pub open spec fn tokens_found(text: Seq<char>, toks: Seq<Seq<char>>, k: int) -> Seq<Seq<char>>
    decreases k,
{
    if k <= 0 {
        Seq::empty()
    } else {
        tokens_found(text, toks, k - 1) + if contains_hatch_spec(text, ascii_lowered(toks[k - 1])) {
            seq![toks[k - 1]]
        } else {
            Seq::empty()
        }
    }
}

/// Which of `system`'s tokens occur in already-lowercased code `lowered`,
/// after its whitespace is normalized, in table order.
pub open spec fn hatch_findings_spec(system: FormalSystem, lowered: Seq<char>) -> Seq<Seq<char>> {
    let toks = hatch_tokens_spec(system);
    tokens_found(normalize_ws_spec(lowered), toks, toks.len() as int)
}

/// Which of `system`'s escape-hatch tokens occur in `lowered` (code already
/// comment-stripped and lowercased), in table order and canonical spelling:
/// whitespace is normalized so a multi-word token matches across line
/// breaks, and each token is matched lowered, with identifier boundaries.
pub fn hatch_findings_in(system: FormalSystem, lowered: &str) -> (r: Vec<String>)
    ensures
        r@.map_values(|s: String| s@) == hatch_findings_spec(system, lowered@),
{
    let lv = chars_of(lowered);
    let norm = normalize_ws(&lv, 0, lv.len());
    assert(lv@.subrange(0, lv@.len() as int) == lv@);
    let toks = escape_hatch_tokens(system);
    let ghost ts = toks@.map_values(|t: &str| t@);
    let mut out: Vec<String> = Vec::new();
    let mut k: usize = 0;
    while k < toks.len()
        invariant
            k <= toks@.len(),
            ts == toks@.map_values(|t: &str| t@),
            ts == hatch_tokens_spec(system),
            norm@ == normalize_ws_spec(lowered@),
            out@.map_values(|s: String| s@) == tokens_found(norm@, ts, k as int),
        decreases toks@.len() - k,
    {
        let tv = chars_of(toks[k]);
        let low = ascii_lower_range(&tv, 0, tv.len());
        proof {
            assert(tv@.subrange(0, tv@.len() as int) == tv@);
            assert(ts[k as int] == tv@);
        }
        let ghost o0 = out@.map_values(|s: String| s@);
        if contains_hatch_token(&norm, &low) {
            out.push(owned(toks[k]));
            assert(out@.map_values(|s: String| s@) =~= o0.push(ts[k as int]));
        } else {
            assert(out@.map_values(|s: String| s@) =~= o0 + Seq::<Seq<char>>::empty());
        }
        k = k + 1;
    }
    out
}

/// Which of `system`'s escape-hatch tokens occur in `code`, matched over the
/// comment-stripped, lowercased source (see [`hatch_findings_in`]).
pub fn escape_hatch_findings(system: FormalSystem, code: &str) -> (r: Vec<String>)
    ensures
        r@.map_values(|s: String| s@) == hatch_findings_spec(system, lowercase(strip_all_spec(code@))),
{
    let stripped = strip_comments(code);
    let lowered = to_lowercase(stripped.as_str());
    hatch_findings_in(system, lowered.as_str())
}

// ===========================================================================
// Statement mention
// ===========================================================================

/// The words of `s` run together.
pub open spec fn squeezed(s: Seq<char>) -> Seq<char> {
    join(words(s), Seq::empty())
}

/// Whether the comment-stripped `code` mentions `stmt`: with all whitespace
/// removed from both, the statement occurs in the code, or else its head
/// (what precedes its first `:`) does and is not empty. An empty statement is
/// never mentioned.
pub open spec fn statement_mentioned_spec(stmt: Seq<char>, code: Seq<char>) -> bool {
    let c = squeezed(strip_all_spec(code));
    let st = squeezed(stmt);
    let head = match first_where(stmt, class_pred(CharClass::Only(':'))) {
        Some(k) => stmt.take(k),
        None => stmt,
    };
    let h = squeezed(head);
    st.len() > 0 && (contains_spec(c, st) || (h.len() > 0 && contains_spec(c, h)))
}

/// Whether `code`, with comments stripped, mentions `stmt` (see
/// [`statement_mentioned_spec`]).
pub fn statement_mentioned(stmt: &str, code: &str) -> (r: bool)
    ensures
        r == statement_mentioned_spec(stmt@, code@),
{
    let cv = chars_of(code);
    let stripped = strip_all_chars(&cv);
    let c = concat_words(&stripped, 0, stripped.len());
    let sv = chars_of(stmt);
    let st = concat_words(&sv, 0, sv.len());
    proof {
        assert(stripped@.subrange(0, stripped@.len() as int) == stripped@);
        assert(sv@.subrange(0, sv@.len() as int) == sv@);
        assert(c@.subrange(0, c@.len() as int) == c@);
    }
    if st.len() == 0 {
        return false;
    }
    if contains_at(&c, 0, c.len(), &st) {
        return true;
    }
    let k = find_class(&sv, 0, sv.len(), CharClass::Only(':'));
    let h = concat_words(&sv, 0, k);
    proof {
        if k < sv@.len() {
            assert(sv@.take(k as int) == sv@.subrange(0, k as int));
        } else {
            assert(sv@.subrange(0, k as int) == sv@);
        }
    }
    h.len() > 0 && contains_at(&c, 0, c.len(), &h)
}


// ===========================================================================
// Entry names
// ===========================================================================

/// The keywords that introduce a named entry in each system.
pub open spec fn entry_keywords(system: FormalSystem) -> Seq<Seq<char>> {
    match system {
        FormalSystem::Lean => seq!["theorem"@, "lemma"@, "example"@, "def"@],
        FormalSystem::Rocq => seq![
            "Theorem"@, "Lemma"@, "Corollary"@, "Proposition"@, "Example"@, "Fact"@, "Remark"@,
            "Definition"@,
        ],
        FormalSystem::Isabelle => seq!["theorem"@, "lemma"@, "corollary"@, "proposition"@],
        FormalSystem::Candle => seq!["let"@],
        FormalSystem::Agda => seq!["module"@, "data"@, "record"@, "postulate"@],
        FormalSystem::Metamath => seq!["$p"@, "$a"@],
    }
}

/// The entry keywords of `system`.
fn entry_keyword_list(system: FormalSystem) -> (r: Vec<&'static str>)
    ensures
        r@.map_values(|t: &str| t@) == entry_keywords(system),
{
    let r: Vec<&'static str> = match system {
        FormalSystem::Lean => vec!["theorem", "lemma", "example", "def"],
        FormalSystem::Rocq => vec![
            "Theorem", "Lemma", "Corollary", "Proposition", "Example", "Fact", "Remark", "Definition",
        ],
        FormalSystem::Isabelle => vec!["theorem", "lemma", "corollary", "proposition"],
        FormalSystem::Candle => vec!["let"],
        FormalSystem::Agda => vec!["module", "data", "record", "postulate"],
        FormalSystem::Metamath => vec!["$p", "$a"],
    };
    assert(r@.map_values(|t: &str| t@) =~= entry_keywords(system));
    r
}

/// The name a line declares after keyword `kw`: the line (leading
/// whitespace dropped) starts with `kw` followed by whitespace, and the name
/// is the identifier characters after that whitespace.
pub open spec fn kw_name(line: Seq<char>, kw: Seq<char>) -> Option<Seq<char>> {
    let t = ltrim(line, white_pred());
    if kw.len() <= t.len() && t.take(kw.len() as int) == kw {
        let rest = t.skip(kw.len() as int);
        if rest.len() > 0 && is_white(rest[0]) {
            let r = ltrim(rest, white_pred());
            let k = match first_where(r, class_pred(CharClass::NonIdent)) {
                Some(k) => k,
                None => r.len() as int,
            };
            if k > 0 { Some(r.take(k)) } else { None }
        } else {
            None
        }
    } else {
        None
    }
}

/// [`kw_name`] of the line window `v[lo..hi]`.
fn kw_name_at(v: &Vec<char>, lo: usize, hi: usize, kw: &str) -> (r: Option<String>)
    requires
        lo <= hi <= v@.len(),
    ensures
        match r {
            Some(n) => kw_name(v@.subrange(lo as int, hi as int), kw@) == Some(n@),
            None => kw_name(v@.subrange(lo as int, hi as int), kw@) is None,
        },
{
    let t = skip_class(v, lo, hi, CharClass::White);
    let w = chars_of(kw);
    proof {
        assert(class_pred(CharClass::White) == white_pred());
    }
    if !starts_with_at(v, t, hi, &w) {
        return None;
    }
    let p = t + w.len();
    proof {
        assert(v@.subrange(t as int, hi as int).skip(w@.len() as int) == v@.subrange(p as int, hi as int));
    }
    if p == hi || !char_is_whitespace(v[p]) {
        return None;
    }
    let a = skip_class(v, p, hi, CharClass::White);
    let b = find_class(v, a, hi, CharClass::NonIdent);
    proof {
        assert(v@.subrange(a as int, hi as int).take(b - a) == v@.subrange(a as int, b as int));
    }
    if b == a {
        None
    } else {
        Some(string_of_range(v, a, b))
    }
}

/// The first name `kws[j..]` yields on `line`.
pub open spec fn line_entry_from(line: Seq<char>, kws: Seq<Seq<char>>, j: int) -> Option<Seq<char>>
    decreases kws.len() - j,
{
    if j < 0 || j >= kws.len() {
        None
    } else {
        match kw_name(line, kws[j]) {
            Some(n) => Some(n),
            None => line_entry_from(line, kws, j + 1),
        }
    }
}

/// The first entry name in `ls[i..]`, line by line and keyword by keyword.
pub open spec fn entry_from(ls: Seq<Seq<char>>, kws: Seq<Seq<char>>, i: int) -> Option<Seq<char>>
    decreases ls.len() - i,
{
    if i < 0 || i >= ls.len() {
        None
    } else {
        match line_entry_from(ls[i], kws, 0) {
            Some(n) => Some(n),
            None => entry_from(ls, kws, i + 1),
        }
    }
}

/// The declared entry name of `code` for `system`: the first keyword-named
/// declaration, scanning lines in order.
pub open spec fn entry_name_spec(system: FormalSystem, code: Seq<char>) -> Option<Seq<char>> {
    entry_from(lines_spec(code), entry_keywords(system), 0)
}

/// The declared entry name of `code` for `system`, if any.
pub fn entry_name(system: FormalSystem, code: &str) -> (r: Option<String>)
    ensures
        opt_str_view(r) == entry_name_spec(system, code@),
{
    let v = chars_of(code);
    let ws = line_windows(&v);
    let ghost ls = lines_spec(v@);
    let kws = entry_keyword_list(system);
    let ghost ks = kws@.map_values(|t: &str| t@);
    let mut i: usize = 0;
    while i < ws.len()
        invariant
            line_windows_of(v@, ws@),
            ws@.len() == ls.len(),
            ls == lines_spec(v@),
            v@ == code@,
            ks == kws@.map_values(|t: &str| t@),
            ks == entry_keywords(system),
            i <= ws@.len(),
            entry_from(ls, ks, 0) == entry_from(ls, ks, i as int),
        decreases ws@.len() - i,
    {
        let (a, b) = ws[i];
        proof {
            lemma_line_window(v@, ws@, i as int);
        }
        let mut j: usize = 0;
        while j < kws.len()
            invariant
                j <= kws@.len(),
                i < ls.len(),
                a <= b <= v@.len(),
                v@.subrange(a as int, b as int) == ls[i as int],
                ls == lines_spec(v@),
                v@ == code@,
                ks == kws@.map_values(|t: &str| t@),
                ks == entry_keywords(system),
                entry_from(ls, ks, 0) == entry_from(ls, ks, i as int),
                line_entry_from(ls[i as int], ks, 0) == line_entry_from(ls[i as int], ks, j as int),
            decreases kws@.len() - j,
        {
            assert(ks[j as int] == kws@[j as int]@);
            if let Some(n) = kw_name_at(&v, a, b, kws[j]) {
                return Some(n);
            }
            j = j + 1;
        }
        i = i + 1;
    }
    None
}

/// The view of an optional string.
pub open spec fn opt_str_view(o: Option<String>) -> Option<Seq<char>> {
    match o {
        Some(s) => Some(s@),
        None => None,
    }
}

/// `acc` extended with the names `kws[..j]` yield on `line`, skipping any
/// already present.
pub open spec fn line_names_upto(acc: Seq<Seq<char>>, line: Seq<char>, kws: Seq<Seq<char>>, j: int) -> Seq<Seq<char>>
    decreases j,
{
    if j <= 0 {
        acc
    } else {
        let prev = line_names_upto(acc, line, kws, j - 1);
        match kw_name(line, kws[j - 1]) {
            Some(n) => if prev.contains(n) { prev } else { prev.push(n) },
            None => prev,
        }
    }
}

/// Every entry name of the first `i` lines, in order, without repeats.
pub open spec fn names_upto(ls: Seq<Seq<char>>, kws: Seq<Seq<char>>, i: int) -> Seq<Seq<char>>
    decreases i,
{
    if i <= 0 {
        Seq::empty()
    } else {
        line_names_upto(names_upto(ls, kws, i - 1), ls[i - 1], kws, kws.len() as int)
    }
}

/// Every declared entry name of `code`, in source order, without repeats.
pub open spec fn all_entry_names_spec(system: FormalSystem, code: Seq<char>) -> Seq<Seq<char>> {
    names_upto(lines_spec(code), entry_keywords(system), lines_spec(code).len() as int)
}

/// Whether `names` holds `name`.
fn has_string(names: &Vec<String>, name: &String) -> (r: bool)
    ensures
        r == names@.map_values(|s: String| s@).contains(name@),
{
    let mut i: usize = 0;
    while i < names.len()
        invariant
            i <= names@.len(),
            forall|j: int| 0 <= j < i ==> names@[j]@ != name@,
        decreases names@.len() - i,
    {
        if names[i] == *name {
            assert(names@.map_values(|s: String| s@)[i as int] == name@);
            return true;
        }
        i = i + 1;
    }
    assert forall|j: int| #![trigger names@[j]] 0 <= j < names@.len() implies names@.map_values(|s: String| s@)[j] != name@ by {
        assert(names@.map_values(|s: String| s@)[j] == names@[j]@);
    }
    false
}

/// Every declared entry name of `code` for `system`, in source order,
/// without repeats.
pub fn all_entry_names(system: FormalSystem, code: &str) -> (r: Vec<String>)
    ensures
        r@.map_values(|s: String| s@) == all_entry_names_spec(system, code@),
{
    let v = chars_of(code);
    let ws = line_windows(&v);
    let ghost ls = lines_spec(v@);
    let kws = entry_keyword_list(system);
    let ghost ks = kws@.map_values(|t: &str| t@);
    let mut out: Vec<String> = Vec::new();
    let mut i: usize = 0;
    while i < ws.len()
        invariant
            line_windows_of(v@, ws@),
            ws@.len() == ls.len(),
            ls == lines_spec(v@),
            v@ == code@,
            ks == kws@.map_values(|t: &str| t@),
            ks == entry_keywords(system),
            i <= ws@.len(),
            out@.map_values(|s: String| s@) == names_upto(ls, ks, i as int),
        decreases ws@.len() - i,
    {
        let (a, b) = ws[i];
        proof {
            lemma_line_window(v@, ws@, i as int);
        }
        let ghost acc0 = out@.map_values(|s: String| s@);
        let mut j: usize = 0;
        while j < kws.len()
            invariant
                j <= kws@.len(),
                a <= b <= v@.len(),
                v@.subrange(a as int, b as int) == ls[i as int],
                ks == kws@.map_values(|t: &str| t@),
                out@.map_values(|s: String| s@) == line_names_upto(acc0, ls[i as int], ks, j as int),
            decreases kws@.len() - j,
        {
            assert(ks[j as int] == kws@[j as int]@);
            if let Some(n) = kw_name_at(&v, a, b, kws[j]) {
                if !has_string(&out, &n) {
                    let ghost o0 = out@.map_values(|s: String| s@);
                    let ghost nv = n@;
                    out.push(n);
                    assert(out@.map_values(|s: String| s@) =~= o0.push(nv));
                }
            }
            j = j + 1;
        }
        i = i + 1;
    }
    out
}

/// Per-declaration compile status: a declaration's name and whether no
/// compiler error mentions it.
#[derive(Debug, Clone, PartialEq, Eq)]
pub struct UnitStatus {
    /// The declared name.
    pub name: String,
    /// Whether the compiler reported no error referencing it.
    pub ok: bool,
}

/// Each declared entry name of `code` with its status: ok when the whole
/// file compiled, else when the joined errors do not mention the name.
pub open spec fn per_declaration_spec(system: FormalSystem, code: Seq<char>, compiled: bool, errors: Seq<Seq<char>>) -> Seq<(Seq<char>, bool)> {
    let blob = join(errors, seq!['\n']);
    all_entry_names_spec(system, code).map_values(|n: Seq<char>| (n, compiled || !contains_spec(blob, n)))
}

/// Failure-isolating per-declaration status: a declaration fails only when
/// an error mentions its name, unless the whole file compiled.
pub fn per_declaration_status(system: FormalSystem, code: &str, compiled: bool, errors: &[String]) -> (r: Vec<UnitStatus>)
    ensures
        r@.map_values(|u: UnitStatus| (u.name@, u.ok)) == per_declaration_spec(
            system,
            code@,
            compiled,
            errors@.map_values(|s: String| s@),
        ),
{
    let names = all_entry_names(system, code);
    let ghost es = errors@.map_values(|s: String| s@);
    let mut blob: Vec<char> = Vec::new();
    let mut e: usize = 0;
    while e < errors.len()
        invariant
            e <= errors@.len(),
            es == errors@.map_values(|s: String| s@),
            blob@ == join(es.take(e as int), seq!['\n']),
        decreases errors@.len() - e,
    {
        proof {
            lemma_join_push(es.take(e as int), seq!['\n'], es[e as int]);
            assert(es.take(e + 1) == es.take(e as int).push(es[e as int]));
        }
        if e > 0 {
            blob.push('\n');
        }
        let ev = chars_of(errors[e].as_str());
        crate::text::extend_chars(&mut blob, &ev, 0, ev.len());
        assert(ev@.subrange(0, ev@.len() as int) == ev@);
        e = e + 1;
    }
    assert(es.take(errors@.len() as int) == es);
    let ghost nv = names@.map_values(|s: String| s@);
    let mut out: Vec<UnitStatus> = Vec::new();
    let mut i: usize = 0;
    while i < names.len()
        invariant
            i <= names@.len(),
            nv == names@.map_values(|s: String| s@),
            blob@ == join(es, seq!['\n']),
            out@.map_values(|u: UnitStatus| (u.name@, u.ok)) == nv.take(i as int).map_values(
                |n: Seq<char>| (n, compiled || !contains_spec(blob@, n)),
            ),
        decreases names@.len() - i,
    {
        let nm = chars_of(names[i].as_str());
        let ok = compiled || !contains_at(&blob, 0, blob.len(), &nm);
        proof {
            assert(blob@.subrange(0, blob@.len() as int) == blob@);
            assert(nv[i as int] == nm@);
        }
        let ghost o0 = out@.map_values(|u: UnitStatus| (u.name@, u.ok));
        out.push(UnitStatus { name: names[i].clone(), ok });
        assert(out@.map_values(|u: UnitStatus| (u.name@, u.ok)) =~= o0.push((nm@, ok)));
        assert(nv.take(i + 1).map_values(|n: Seq<char>| (n, compiled || !contains_spec(blob@, n))) =~= nv.take(i as int).map_values(|n: Seq<char>| (n, compiled || !contains_spec(blob@, n))).push((nm@, ok)));
        i = i + 1;
    }
    assert(nv.take(names@.len() as int) == nv);
    out
}

// ===========================================================================
// Theorem-name hint
// ===========================================================================

/// The first whitespace-separated token of `s`, if any.
pub open spec fn first_token(s: Seq<char>) -> Option<Seq<char>> {
    let r = ltrim(s, class_pred(CharClass::White));
    let k = match first_where(r, class_pred(CharClass::White)) {
        Some(k) => k,
        None => r.len() as int,
    };
    if k > 0 { Some(r.take(k)) } else { None }
}

/// The name that header keyword `kw` gives `low`: `low` starts with `kw`,
/// and the first token after it, with trailing `:` and `(` removed, is not
/// empty.
pub open spec fn hint_after(low: Seq<char>, kw: Seq<char>) -> Option<Seq<char>> {
    if kw.len() <= low.len() && low.take(kw.len() as int) == kw {
        match first_token(low.skip(kw.len() as int)) {
            Some(t) => {
                let n = rtrim(t, class_pred(CharClass::ColonParen));
                if n.len() > 0 { Some(n) } else { None }
            },
            None => None,
        }
    } else {
        None
    }
}

/// The header keywords a theorem name is looked for after, in order.
pub open spec fn hint_keywords() -> Seq<Seq<char>> {
    seq!["theorem"@, "Theorem"@, "lemma"@, "Lemma"@]
}

/// The first name the keywords `kws[j..]` give `low`.
pub open spec fn hint_from(low: Seq<char>, kws: Seq<Seq<char>>, j: int) -> Option<Seq<char>>
    decreases kws.len() - j,
{
    if j < 0 || j >= kws.len() {
        None
    } else {
        match hint_after(low, kws[j]) {
            Some(n) => Some(n),
            None => hint_from(low, kws, j + 1),
        }
    }
}

/// A plausible theorem name for a statement header, or `MainTheorem`.
pub open spec fn theorem_name_hint_spec(stmt: Seq<char>) -> Seq<char> {
    match hint_from(ltrim(stmt, class_pred(CharClass::White)), hint_keywords(), 0) {
        Some(n) => n,
        None => "MainTheorem"@,
    }
}

/// The header keyword at position `j` of [`hint_keywords`].
fn hint_keyword(j: usize) -> (r: &'static str)
    requires
        j < 4,
    ensures
        r@ == hint_keywords()[j as int],
{
    if j == 0 {
        "theorem"
    } else if j == 1 {
        "Theorem"
    } else if j == 2 {
        "lemma"
    } else {
        "Lemma"
    }
}

/// Extract a plausible theorem name from a statement header
/// (`theorem foo : ...`, `Theorem foo : ...`, `lemma foo: ...`), falling back
/// to `MainTheorem`.
pub fn theorem_name_hint(stmt: &str) -> (r: String)
    ensures
        r@ == theorem_name_hint_spec(stmt@),
{
    let v = chars_of(stmt);
    let n = v.len();
    let t = skip_class(&v, 0, n, CharClass::White);
    let ghost low = v@.subrange(t as int, n as int);
    assert(v@.subrange(0, n as int) == v@);
    let mut j: usize = 0;
    while j < 4
        invariant
            j <= 4,
            t <= n == v@.len(),
            v@ == stmt@,
            low == v@.subrange(t as int, n as int),
            low == ltrim(stmt@, class_pred(CharClass::White)),
            hint_keywords().len() == 4,
            hint_from(low, hint_keywords(), 0) == hint_from(low, hint_keywords(), j as int),
        decreases 4 - j,
    {
        let kw = hint_keyword(j);
        let w = chars_of(kw);
        if starts_with_at(&v, t, n, &w) {
            let p = t + w.len();
            proof {
                assert(low.skip(w@.len() as int) == v@.subrange(p as int, n as int));
                assert(class_pred(CharClass::White) == white_pred());
            }
            let a = skip_class(&v, p, n, CharClass::White);
            let b = find_class(&v, a, n, CharClass::White);
            proof {
                assert(v@.subrange(a as int, n as int).take(b - a) == v@.subrange(a as int, b as int));
            }
            if b > a {
                let e = rskip_class(&v, a, b, CharClass::ColonParen);
                if e > a {
                    return string_of_range(&v, a, e);
                }
            }
        }
        j = j + 1;
    }
    owned("MainTheorem")
}

// ===========================================================================
// Parsing a system tag
// ===========================================================================

/// The normalised form of a system tag: surrounding whitespace trimmed and
/// ASCII capitals lowered.
pub open spec fn normalized_tag(s: Seq<char>) -> Seq<char> {
    trim(s, class_pred(CharClass::White)).map_values(|c: char| ascii_lower(c))
}

/// The system a normalised tag names, if any. `hol` belongs to Isabelle, so
/// Candle answers to its explicit tags only.
pub open spec fn system_of_tag(t: Seq<char>) -> Option<FormalSystem> {
    if t == "lean"@ || t == "lean4"@ {
        Some(FormalSystem::Lean)
    } else if t == "rocq"@ || t == "coq"@ {
        Some(FormalSystem::Rocq)
    } else if t == "isabelle"@ || t == "isabelle/hol"@ || t == "hol"@ {
        Some(FormalSystem::Isabelle)
    } else if t == "candle"@ || t == "hol_light"@ || t == "hol-light"@ || t == "hollight"@ {
        Some(FormalSystem::Candle)
    } else if t == "agda"@ {
        Some(FormalSystem::Agda)
    } else if t == "metamath"@ || t == "mm"@ {
        Some(FormalSystem::Metamath)
    } else {
        None
    }
}

/// A tag that names no formal system.
#[derive(Debug, Clone, PartialEq, Eq)]
pub struct UnknownSystem {
    /// The normalised tag that was not recognised.
    pub tag: String,
}

impl UnknownSystem {
    /// `unknown formal system: <tag>`.
    pub fn message(&self) -> (r: String)
        ensures
            r@ == "unknown formal system: "@ + self.tag@,
    {
        let mut r = owned("unknown formal system: ");
        r.append(self.tag.as_str());
        r
    }
}

/// Whether `v` spells `t`.
fn spells(v: &Vec<char>, t: &str) -> (r: bool)
    ensures
        r == (v@ == t@),
{
    let w = chars_of(t);
    chars_eq(v, &w)
}

/// Parse a system tag: surrounding whitespace and ASCII case are ignored;
/// an unknown tag is an error carrying its normalised form.
pub fn parse_system(s: &str) -> (r: Result<FormalSystem, UnknownSystem>)
    ensures
        match r {
            Ok(x) => system_of_tag(normalized_tag(s@)) == Some(x),
            Err(e) => system_of_tag(normalized_tag(s@)) is None && e.tag@ == normalized_tag(s@),
        },
{
    let v = chars_of(s);
    let (a, b) = trim_class(&v, 0, v.len(), CharClass::White);
    assert(v@.subrange(0, v@.len() as int) == v@);
    let t = ascii_lower_range(&v, a, b);
    if spells(&t, "lean") || spells(&t, "lean4") {
        Ok(FormalSystem::Lean)
    } else if spells(&t, "rocq") || spells(&t, "coq") {
        Ok(FormalSystem::Rocq)
    } else if spells(&t, "isabelle") || spells(&t, "isabelle/hol") || spells(&t, "hol") {
        Ok(FormalSystem::Isabelle)
    } else if spells(&t, "candle") || spells(&t, "hol_light") || spells(&t, "hol-light") || spells(&t, "hollight") {
        Ok(FormalSystem::Candle)
    } else if spells(&t, "agda") {
        Ok(FormalSystem::Agda)
    } else if spells(&t, "metamath") || spells(&t, "mm") {
        Ok(FormalSystem::Metamath)
    } else {
        Err(UnknownSystem { tag: string_of(&t) })
    }
}

impl core::str::FromStr for FormalSystem {
    type Err = UnknownSystem;

    fn from_str(s: &str) -> Result<Self, Self::Err> {
        parse_system(s)
    }
}

// ===========================================================================
// Sessions, gates and success signals
// ===========================================================================

/// Errors of a proof session: an operation the system does not support
/// (tactic stepping on a theory-granular system), or a backend fault.
#[derive(Debug, Clone, PartialEq, Eq)]
pub enum SessionError {
    /// The operation is not supported by this system.
    Unsupported(&'static str),
    /// A backend or driver fault.
    Backend(String),
}

impl SessionError {
    /// The human-readable message of the error.
    pub fn message(&self) -> (r: String)
        ensures
            r@ == match self {
                SessionError::Unsupported(what) => "unsupported operation: "@ + what@,
                SessionError::Backend(msg) => "session backend error: "@ + msg@,
            },
    {
        match self {
            SessionError::Unsupported(what) => {
                let mut r = owned("unsupported operation: ");
                r.append(what);
                r
            },
            SessionError::Backend(msg) => {
                let mut r = owned("session backend error: ");
                r.append(msg.as_str());
                r
            },
        }
    }
}

/// Which of the two semantic gates are conjoined into the overall result.
/// Both are off by default: each needs a channel the caller must supply.
#[derive(Debug, Clone, Copy, PartialEq, Eq, Structural)]
pub struct TierZeroGates {
    /// Conjoin the hypothesis-discharge audit's result.
    pub hypothesis_discharge: bool,
    /// Conjoin the vacuous-success guard's result.
    pub vacuity: bool,
}

impl Default for TierZeroGates {
    fn default() -> (r: Self)
        ensures
            !r.hypothesis_discharge && !r.vacuity,
    {
        TierZeroGates { hypothesis_discharge: false, vacuity: false }
    }
}

/// Whether a gate setting switches its gate on: anything but an absent,
/// empty, `0`, `false` or `off` value (trimmed, ASCII case ignored).
pub open spec fn gate_setting_on(v: Option<Seq<char>>) -> bool {
    match v {
        None => false,
        Some(s) => {
            let t = normalized_tag(s);
            !(t == ""@ || t == "0"@ || t == "false"@ || t == "off"@)
        },
    }
}

impl TierZeroGates {
    /// Both gates observational only.
    pub fn off() -> (r: Self)
        ensures
            !r.hypothesis_discharge && !r.vacuity,
    {
        TierZeroGates { hypothesis_discharge: false, vacuity: false }
    }

    /// Both gates enforcing.
    pub fn on() -> (r: Self)
        ensures
            r.hypothesis_discharge && r.vacuity,
    {
        TierZeroGates { hypothesis_discharge: true, vacuity: true }
    }

    /// The gates from the two configuration flags.
    pub fn from_config(hypothesis_gate: bool, vacuity_gate: bool) -> (r: Self)
        ensures
            r.hypothesis_discharge == hypothesis_gate,
            r.vacuity == vacuity_gate,
    {
        TierZeroGates { hypothesis_discharge: hypothesis_gate, vacuity: vacuity_gate }
    }

    /// The gates from the values of their two settings (`None` when unset),
    /// each read as [`gate_setting_on`] says.
    pub fn from_settings(hypothesis: Option<&str>, vacuity: Option<&str>) -> (r: Self)
        ensures
            r.hypothesis_discharge == gate_setting_on(opt_view(hypothesis)),
            r.vacuity == gate_setting_on(opt_view(vacuity)),
    {
        TierZeroGates { hypothesis_discharge: gate_value_on(hypothesis), vacuity: gate_value_on(vacuity) }
    }

    /// Whether either gate is enforcing.
    pub fn any(self) -> (r: bool)
        ensures
            r == (self.hypothesis_discharge || self.vacuity),
    {
        self.hypothesis_discharge || self.vacuity
    }
}

/// The view of an optional string slice.
pub open spec fn opt_view(o: Option<&str>) -> Option<Seq<char>> {
    match o {
        Some(s) => Some(s@),
        None => None,
    }
}

/// Whether one gate setting switches its gate on.
pub fn gate_value_on(v: Option<&str>) -> (r: bool)
    ensures
        r == gate_setting_on(opt_view(v)),
{
    match v {
        None => false,
        Some(s) => {
            let c = chars_of(s);
            let (a, b) = trim_class(&c, 0, c.len(), CharClass::White);
            assert(c@.subrange(0, c@.len() as int) == c@);
            let t = ascii_lower_range(&c, a, b);
            !(spells(&t, "") || spells(&t, "0") || spells(&t, "false") || spells(&t, "off"))
        },
    }
}

/// What positively constitutes a passing compile. Exit status is never
/// trusted on its own unless the checker is known to set it honestly.
#[derive(Debug, Clone, Copy)]
pub enum SuccessSignal {
    /// The checker exits non-zero on failure, so a clean exit is a pass.
    NonZeroExitIsHonest,
    /// The exit code is unreliable: a pass needs the combined output to hold
    /// every `must_contain` marker and none of the `must_not_contain` markers,
    /// the latter matched case-insensitively.
    StdoutSentinel { must_contain: &'static [&'static str], must_not_contain: &'static [&'static str] },
}

/// Standard output and standard error joined by one newline.
pub open spec fn combined_output(stdout: Seq<char>, stderr: Seq<char>) -> Seq<char> {
    stdout + seq!['\n'] + stderr
}

/// The sentinel test: `combined` holds every marker of `must`, and its
/// lowercase form `lowered` holds none of the lowercased markers `banned`.
pub open spec fn sentinel_pass(combined: Seq<char>, lowered: Seq<char>, must: Seq<Seq<char>>, banned: Seq<Seq<char>>) -> bool {
    &&& forall|i: int| 0 <= i < must.len() ==> contains_spec(combined, #[trigger] must[i])
    &&& forall|i: int| 0 <= i < banned.len() ==> !contains_spec(lowered, #[trigger] banned[i])
}

/// The views of a slice of string slices.
pub open spec fn str_views(v: Seq<&str>) -> Seq<Seq<char>> {
    v.map_values(|m: &str| m@)
}

/// The lowercase forms of a slice of string slices.
pub open spec fn lowered_views(v: Seq<&str>) -> Seq<Seq<char>> {
    v.map_values(|m: &str| lowercase(m@))
}

/// Whether the combined output and its lowercase form pass the sentinel
/// test, given the required markers and the lowercased banned markers.
pub fn sentinel_holds(combined: &str, lowered: &str, must: &[&str], banned: &[String]) -> (r: bool)
    ensures
        r == sentinel_pass(combined@, lowered@, str_views(must@), banned@.map_values(|b: String| b@)),
{
    let c = chars_of(combined);
    let l = chars_of(lowered);
    let ghost mv = str_views(must@);
    let ghost bv = banned@.map_values(|b: String| b@);
    let mut i: usize = 0;
    while i < must.len()
        invariant
            i <= must@.len(),
            c@ == combined@,
            mv == str_views(must@),
            forall|k: int| 0 <= k < i ==> contains_spec(c@, #[trigger] mv[k]),
        decreases must@.len() - i,
    {
        let m = chars_of(must[i]);
        assert(c@.subrange(0, c@.len() as int) == c@);
        assert(mv[i as int] == m@);
        if !contains_at(&c, 0, c.len(), &m) {
            return false;
        }
        i = i + 1;
    }
    let mut j: usize = 0;
    while j < banned.len()
        invariant
            j <= banned@.len(),
            l@ == lowered@,
            c@ == combined@,
            mv == str_views(must@),
            bv == banned@.map_values(|b: String| b@),
            forall|k: int| 0 <= k < mv.len() ==> contains_spec(c@, #[trigger] mv[k]),
            forall|k: int| 0 <= k < j ==> !contains_spec(l@, #[trigger] bv[k]),
        decreases banned@.len() - j,
    {
        let b = chars_of(banned[j].as_str());
        assert(l@.subrange(0, l@.len() as int) == l@);
        assert(bv[j as int] == b@);
        if contains_at(&l, 0, l.len(), &b) {
            return false;
        }
        j = j + 1;
    }
    true
}

impl SuccessSignal {
    /// Evaluate the signal against a run: `launched` is whether the process
    /// started, `exit_success` the exit-code result (launched, not timed out,
    /// exited zero).
    pub fn is_pass(&self, launched: bool, exit_success: bool, stdout: &str, stderr: &str) -> (r: bool)
        ensures
            r == match *self {
                SuccessSignal::NonZeroExitIsHonest => exit_success,
                SuccessSignal::StdoutSentinel { must_contain, must_not_contain } => launched && sentinel_pass(
                    combined_output(stdout@, stderr@),
                    lowercase(combined_output(stdout@, stderr@)),
                    str_views(must_contain@),
                    lowered_views(must_not_contain@),
                ),
            },
    {
        match *self {
            SuccessSignal::NonZeroExitIsHonest => exit_success,
            SuccessSignal::StdoutSentinel { must_contain, must_not_contain } => {
                if !launched {
                    return false;
                }
                let mut combined = owned(stdout);
                combined.append("\n");
                combined.append(stderr);
                proof {
                    reveal_strlit("\n");
                }
                assert(combined@ == combined_output(stdout@, stderr@));
                let lc = to_lowercase(combined.as_str());
                let mut banned: Vec<String> = Vec::new();
                let mut k: usize = 0;
                while k < must_not_contain.len()
                    invariant
                        k <= must_not_contain@.len(),
                        banned@.map_values(|b: String| b@) == lowered_views(must_not_contain@).take(k as int),
                    decreases must_not_contain@.len() - k,
                {
                    let ghost b0 = banned@.map_values(|b: String| b@);
                    let lm = to_lowercase(must_not_contain[k]);
                    banned.push(lm);
                    assert(banned@.map_values(|b: String| b@) =~= b0.push(lowercase(must_not_contain@[k as int]@)));
                    assert(lowered_views(must_not_contain@).take(k + 1) =~= lowered_views(must_not_contain@).take(k as int).push(lowercase(must_not_contain@[k as int]@)));
                    k = k + 1;
                }
                assert(lowered_views(must_not_contain@).take(must_not_contain@.len() as int) =~= lowered_views(must_not_contain@));
                sentinel_holds(combined.as_str(), lc.as_str(), must_contain, &banned)
            },
        }
    }
}

/// A scaffolded, ready-to-build workspace.
#[derive(Debug, Clone)]
pub struct Workspace {
    /// The system the workspace is built for.
    pub system: FormalSystem,
    /// The project root directory.
    pub root: String,
    /// The generated source file.
    pub source_path: String,
    /// Fully-qualified theorem name the audit and recheck target.
    pub entry: String,
}

/// The result of a lexical scan: clean or not, with human-readable
/// findings.
#[derive(Debug, Clone, PartialEq, Eq)]
pub struct ScanReport {
    /// Whether nothing was found.
    pub clean: bool,
    /// What was found.
    pub findings: Vec<String>,
}


proof fn lemma_strip_all_from_positions(s: Seq<char>, i: int, stack: Seq<(char, char)>, in_line: bool)
    requires
        0 <= i <= s.len(),
        forall|k: int| 0 <= k < stack.len() ==> (#[trigger] stack[k]).0 != '\n' && stack[k].1 != '\n',
    ensures
        strip_all_from(s, i, stack, in_line).len() == s.len() - i,
        forall|j: int|
            0 <= j < s.len() - i ==> (#[trigger] strip_all_from(s, i, stack, in_line)[j] == '\n') == (s[i + j] == '\n'),
        forall|j: int|
            0 <= j < s.len() - i ==> #[trigger] strip_all_from(s, i, stack, in_line)[j] == s[i + j] || strip_all_from(
                s,
                i,
                stack,
                in_line,
            )[j] == ' ',
    decreases s.len() - i,
{
    if i < s.len() {
        let c = s[i];
        let nx: Option<char> = if i + 1 < s.len() { Some(s[i + 1]) } else { None };
        let out = strip_all_from(s, i, stack, in_line);
        if in_line {
            lemma_strip_all_from_positions(s, i + 1, stack, c != '\n');
            let rest = strip_all_from(s, i + 1, stack, c != '\n');
            assert(out == seq![out[0]] + rest);
            assert forall|j: int| 0 <= j < s.len() - i implies (#[trigger] out[j] == '\n') == (s[i + j] == '\n')
                && (out[j] == s[i + j] || out[j] == ' ') by {
                if j > 0 {
                    assert(out[j] == rest[j - 1]);
                }
            }
        } else if stack.len() > 0 {
            let (a, b) = stack.last();
            if c == a && nx == Some(b) {
                let st = stack.drop_last();
                assert forall|k: int| 0 <= k < st.len() implies (#[trigger] st[k]).0 != '\n' && st[k].1 != '\n' by {
                    assert(st[k] == stack[k]);
                }
                lemma_strip_all_from_positions(s, i + 2, st, false);
                let rest = strip_all_from(s, i + 2, st, false);
                assert(out == seq![' ', ' '] + rest);
                assert(stack[stack.len() - 1].0 != '\n' && stack[stack.len() - 1].1 != '\n');
                assert forall|j: int| 0 <= j < s.len() - i implies (#[trigger] out[j] == '\n') == (s[i + j] == '\n')
                    && (out[j] == s[i + j] || out[j] == ' ') by {
                    if j > 1 {
                        assert(out[j] == rest[j - 2]);
                    }
                }
            } else {
                match block_closer_spec(c, nx) {
                    Some(cl) => {
                        let st = stack.push(cl);
                        assert forall|k: int| 0 <= k < st.len() implies (#[trigger] st[k]).0 != '\n' && st[k].1 != '\n' by {
                            if k < stack.len() {
                                assert(st[k] == stack[k]);
                            }
                        }
                        lemma_strip_all_from_positions(s, i + 2, st, false);
                        let rest = strip_all_from(s, i + 2, st, false);
                        assert(out == seq![' ', ' '] + rest);
                        assert forall|j: int| 0 <= j < s.len() - i implies (#[trigger] out[j] == '\n') == (s[i + j]
                            == '\n') && (out[j] == s[i + j] || out[j] == ' ') by {
                            if j > 1 {
                                assert(out[j] == rest[j - 2]);
                            }
                        }
                    },
                    None => {
                        lemma_strip_all_from_positions(s, i + 1, stack, false);
                        let rest = strip_all_from(s, i + 1, stack, false);
                        assert(out == seq![out[0]] + rest);
                        assert forall|j: int| 0 <= j < s.len() - i implies (#[trigger] out[j] == '\n') == (s[i + j]
                            == '\n') && (out[j] == s[i + j] || out[j] == ' ') by {
                            if j > 0 {
                                assert(out[j] == rest[j - 1]);
                            }
                        }
                    },
                }
            }
        } else {
            let pragma = if c == '{' && nx == Some('-') && i + 2 < s.len() && s[i + 2] == '#' {
                pragma_end_spec(s, i + 3)
            } else {
                None
            };
            match pragma {
                Some(end) => {
                    lemma_pragma_end(s, i + 3);
                    lemma_strip_all_from_positions(s, end, stack, false);
                    let rest = strip_all_from(s, end, stack, false);
                    assert(out == s.subrange(i, end) + rest);
                    assert forall|j: int| 0 <= j < s.len() - i implies (#[trigger] out[j] == '\n') == (s[i + j] == '\n')
                        && (out[j] == s[i + j] || out[j] == ' ') by {
                        if j >= end - i {
                            assert(out[j] == rest[j - (end - i)]);
                        } else {
                            assert(out[j] == s[i + j]);
                        }
                    }
                },
                None => match block_closer_spec(c, nx) {
                    Some(cl) => {
                        let st = seq![cl];
                        lemma_strip_all_from_positions(s, i + 2, st, false);
                        let rest = strip_all_from(s, i + 2, st, false);
                        assert(out == seq![' ', ' '] + rest);
                        assert forall|j: int| 0 <= j < s.len() - i implies (#[trigger] out[j] == '\n') == (s[i + j]
                            == '\n') && (out[j] == s[i + j] || out[j] == ' ') by {
                            if j > 1 {
                                assert(out[j] == rest[j - 2]);
                            }
                        }
                    },
                    None => if (c == '-' && nx == Some('-')) || (c == '/' && nx == Some('/')) {
                        lemma_strip_all_from_positions(s, i + 2, stack, true);
                        let rest = strip_all_from(s, i + 2, stack, true);
                        assert(out == seq![' ', ' '] + rest);
                        assert forall|j: int| 0 <= j < s.len() - i implies (#[trigger] out[j] == '\n') == (s[i + j]
                            == '\n') && (out[j] == s[i + j] || out[j] == ' ') by {
                            if j > 1 {
                                assert(out[j] == rest[j - 2]);
                            }
                        }
                    } else {
                        lemma_strip_all_from_positions(s, i + 1, stack, false);
                        let rest = strip_all_from(s, i + 1, stack, false);
                        assert(out == seq![c] + rest);
                        assert forall|j: int| 0 <= j < s.len() - i implies (#[trigger] out[j] == '\n') == (s[i + j]
                            == '\n') && (out[j] == s[i + j] || out[j] == ' ') by {
                            if j > 0 {
                                assert(out[j] == rest[j - 1]);
                            }
                        }
                    },
                },
            }
        }
    }
}

/// Blanking the comments of every system keeps positions: the result is as
/// long as the input, has a `'\n'` exactly where the input has one, and
/// elsewhere holds either the input character or a space.
pub proof fn lemma_strip_all_keeps_positions(s: Seq<char>)
    ensures
        strip_all_spec(s).len() == s.len(),
        forall|j: int| 0 <= j < s.len() ==> (#[trigger] strip_all_spec(s)[j] == '\n') == (s[j] == '\n'),
        forall|j: int| 0 <= j < s.len() ==> #[trigger] strip_all_spec(s)[j] == s[j] || strip_all_spec(s)[j] == ' ',
{
    lemma_strip_all_from_positions(s, 0, Seq::empty(), false);
}
} // verus!
