//! Checker-backed replay of tactic sequences, the soundness seam of proof
//! minimization.
//!
//! A replay answers one question: does executing exactly this tactic
//! sequence, from the root goal, against a real checker, leave no open goal?
//! Every uncertainty answers no: an empty sequence, a blank tactic, a mock
//! backend, an unavailable toolchain, a system whose source cannot be
//! assembled, a statement that is not a declaration header, or a layered run
//! that did not pass live.
//!
//! The sequence is assembled into a complete source file under the original
//! statement and submitted to every verification layer; only Lean's tactic blocks are
//! rendered, every other system is declined.
use vstd::prelude::*;
use crate::formal::{entry_name, entry_name_spec, FormalSystem};
use crate::gate::GateVerdict;
use crate::text::{
    chars_of, class_pred, contains_at, contains_spec, lemma_line_window, line_windows, lines_spec, owned, push_char,
    push_range, rskip_class, rtrim, trim, trim_class, white_pred, CharClass,
};

verus! {

/// Replay a tactic sequence against a real checker. An implementor answers
/// `true` only when a real checker confirmed that executing `tactics` in
/// order, from the root goal, leaves no open goal; every other outcome is
/// `false`.
pub trait TacticReplay {
    /// Whether `tactics` closes the root goal, as confirmed by a checker.
    fn replays_closed(&mut self, tactics: &[String]) -> bool;
}

/// The replay that confirms nothing: what to pass when no checker is wired
/// up, so minimization always keeps the original proof.
#[derive(Debug, Clone, Copy, Default)]
pub struct DenyAllReplay;

impl TacticReplay for DenyAllReplay {
    fn replays_closed(&mut self, _tactics: &[String]) -> (r: bool)
        ensures
            !r,
    {
        false
    }
}

/// The texts of a tactic sequence.
pub open spec fn tactic_texts(ts: Seq<String>) -> Seq<Seq<char>> {
    ts.map_values(|t: String| t@)
}

/// The first `n` lines, each indented by two spaces, trimmed at the end and
/// ended.
pub open spec fn block_lines(ls: Seq<Seq<char>>, n: int) -> Seq<char>
    decreases n,
{
    if n <= 0 || n > ls.len() {
        Seq::empty()
    } else {
        block_lines(ls, n - 1) + "  "@ + rtrim(ls[n - 1], white_pred()) + "\n"@
    }
}

/// The tactic block of the first `n` tactics: every line of each, in order.
pub open spec fn tactic_block(ts: Seq<Seq<char>>, n: int) -> Seq<char>
    decreases n,
{
    if n <= 0 || n > ts.len() {
        Seq::empty()
    } else {
        tactic_block(ts, n - 1) + block_lines(lines_spec(ts[n - 1]), lines_spec(ts[n - 1]).len() as int)
    }
}

/// The newline that ends a preamble which does not end in one.
pub open spec fn preamble_end(p: Seq<char>) -> Seq<char> {
    if p.len() > 0 && p.last() != '\n' { "\n"@ } else { Seq::empty() }
}

/// The source submitted for `tactics`: nothing for a blank statement or no
/// tactics, for a statement that opens no declaration of the system, for a
/// statement that already has a body (`:=`), and for every system but Lean;
/// for Lean, the preamble (newline-ended), a blank line, the trimmed
/// statement with ` := by`, and the tactic block.
pub open spec fn assemble_spec(system: FormalSystem, preamble: Seq<char>, statement: Seq<char>, tactics: Seq<Seq<char>>) -> Option<Seq<char>> {
    let st = trim(statement, white_pred());
    if st.len() == 0 || tactics.len() == 0 {
        None
    } else if entry_name_spec(system, st) is None {
        None
    } else {
        match system {
            FormalSystem::Lean => if contains_spec(st, ":="@) {
                None
            } else {
                Some(preamble + preamble_end(preamble) + "\n"@ + st + " := by\n"@ + tactic_block(tactics, tactics.len() as int))
            },
            _ => None,
        }
    }
}

/// Append the block lines of one tactic.
fn push_tactic(src: &mut String, t: &str)
    ensures
        final(src)@ == old(src)@ + block_lines(lines_spec(t@), lines_spec(t@).len() as int),
{
    let v = chars_of(t);
    let ws = line_windows(&v);
    let ghost ls = lines_spec(t@);
    let ghost pre = src@;
    assert forall|j: int| 0 <= j < ws@.len() implies #[trigger] ws@[j].0 <= ws@[j].1 <= v@.len()
        && v@.subrange(ws@[j].0 as int, ws@[j].1 as int) == ls[j] by {
        lemma_line_window(v@, ws@, j);
    }
    let mut k: usize = 0;
    while k < ws.len()
        invariant
            k <= ws@.len() == ls.len(),
            v@ == t@,
            ls == lines_spec(v@),
            forall|j: int| 0 <= j < ws@.len() ==> #[trigger] ws@[j].0 <= ws@[j].1 <= v@.len()
                && v@.subrange(ws@[j].0 as int, ws@[j].1 as int) == ls[j],
            src@ == pre + block_lines(ls, k as int),
        decreases ws@.len() - k,
    {
        let (a, b) = ws[k];
        let e = rskip_class(&v, a, b, CharClass::White);
        proof {
            assert(class_pred(CharClass::White) == white_pred());
        }
        src.append("  ");
        push_range(src, &v, a, e);
        push_char(src, '\n');
        proof {
            reveal_strlit("  ");
            reveal_strlit("\n");
        }
        assert(src@ =~= pre + block_lines(ls, k + 1));
        k = k + 1;
    }
}

/// Assemble `tactics` into the source proving `statement` (see
/// [`assemble_spec`]).
pub fn assemble_source(system: FormalSystem, preamble: &str, statement: &str, tactics: &[String]) -> (r: Option<String>)
    ensures
        match r {
            Some(s) => assemble_spec(system, preamble@, statement@, tactic_texts(tactics@)) == Some(s@),
            None => assemble_spec(system, preamble@, statement@, tactic_texts(tactics@)) is None,
        },
{
    let v = chars_of(statement);
    let (a, b) = trim_class(&v, 0, v.len(), CharClass::White);
    proof {
        assert(class_pred(CharClass::White) == white_pred());
        assert(v@.subrange(0, v@.len() as int) == v@);
    }
    if a == b || tactics.len() == 0 {
        return None;
    }
    let mut st = String::new();
    push_range(&mut st, &v, a, b);
    match entry_name(system, st.as_str()) {
        Some(_) => {},
        None => { return None; },
    }
    match system {
        FormalSystem::Lean => {
            let sv = chars_of(st.as_str());
            let op = chars_of(":=");
            proof {
                assert(sv@.subrange(0, sv@.len() as int) == sv@);
                reveal_strlit(":=");
            }
            if contains_at(&sv, 0, sv.len(), &op) {
                return None;
            }
            let mut src = owned(preamble);
            let pv = chars_of(preamble);
            if pv.len() > 0 && pv[pv.len() - 1] != '\n' {
                push_char(&mut src, '\n');
            }
            push_char(&mut src, '\n');
            src.append(st.as_str());
            src.append(" := by\n");
            let ghost pre = src@;
            let ghost tv = tactic_texts(tactics@);
            let mut i: usize = 0;
            while i < tactics.len()
                invariant
                    i <= tactics@.len(),
                    tv == tactic_texts(tactics@),
                    src@ == pre + tactic_block(tv, i as int),
                decreases tactics@.len() - i,
            {
                push_tactic(&mut src, tactics[i].as_str());
                assert(src@ =~= pre + tactic_block(tv, i + 1));
                i = i + 1;
            }
            proof {
                reveal_strlit("\n");
                reveal_strlit(" := by\n");
            }
            assert(src@ =~= assemble_spec(system, preamble@, statement@, tv).unwrap());
            Some(src)
        },
        _ => None,
    }
}

/// The default preamble: `import Mathlib` for Lean, nothing for the systems
/// that are declined anyway.
pub open spec fn default_preamble_spec(system: FormalSystem) -> Seq<char> {
    match system {
        FormalSystem::Lean => "import Mathlib\n"@,
        _ => Seq::empty(),
    }
}

/// [`default_preamble_spec`] computed.
fn default_preamble(system: FormalSystem) -> (r: String)
    ensures
        r@ == default_preamble_spec(system),
{
    match system {
        FormalSystem::Lean => owned("import Mathlib\n"),
        _ => String::new(),
    }
}

/// Whether some tactic of the sequence is blank.
pub open spec fn has_blank(ts: Seq<Seq<char>>) -> bool {
    exists|i: int| 0 <= i < ts.len() && trim(#[trigger] ts[i], white_pred()).len() == 0
}

/// The replay's plain part: the system, the root statement (trimmed)
/// and the preamble the assembled source opens with. The backend that runs
/// the layers is held by the caller, which passes in what it reports.
#[derive(Debug, Clone, PartialEq, Eq)]
pub struct GateReplay {
    pub system: FormalSystem,
    /// The root goal as a declaration header without a body.
    pub statement: String,
    /// Prepended to the assembled source, one directive per line.
    pub preamble: String,
}

impl GateReplay {
    /// A replay of `statement` for `system` with the system's default
    /// preamble.
    pub fn new(system: FormalSystem, statement: &str) -> (r: Self)
        ensures
            r.system == system,
            r.statement@ == trim(statement@, white_pred()),
            r.preamble@ == default_preamble_spec(system),
    {
        let v = chars_of(statement);
        let (a, b) = trim_class(&v, 0, v.len(), CharClass::White);
        proof {
            assert(class_pred(CharClass::White) == white_pred());
            assert(v@.subrange(0, v@.len() as int) == v@);
        }
        let mut st = String::new();
        push_range(&mut st, &v, a, b);
        GateReplay { system, statement: st, preamble: default_preamble(system) }
    }

    /// The same replay with another preamble.
    pub fn with_preamble(self, preamble: &str) -> (r: Self)
        ensures
            r.system == self.system,
            r.statement == self.statement,
            r.preamble@ == preamble@,
    {
        GateReplay { system: self.system, statement: self.statement, preamble: owned(preamble) }
    }

    /// The source this replay submits for `tactics`, if it can be
    /// assembled soundly.
    pub fn assemble(&self, tactics: &[String]) -> (r: Option<String>)
        ensures
            match r {
                Some(s) => assemble_spec(self.system, self.preamble@, self.statement@, tactic_texts(tactics@)) == Some(s@),
                None => assemble_spec(self.system, self.preamble@, self.statement@, tactic_texts(tactics@)) is None,
            },
    {
        assemble_source(self.system, self.preamble.as_str(), self.statement.as_str(), tactics)
    }

    /// The source to submit to the layers for `tactics`, given whether the
    /// backend is a mock and whether its toolchain is available: nothing
    /// for an empty sequence, a blank tactic, a mock, an unavailable
    /// toolchain, or a source that cannot be assembled.
    pub fn gate_source(&self, tactics: &[String], is_mock: bool, available: bool) -> (r: Option<String>)
        ensures
            match r {
                Some(s) => tactics@.len() > 0 && !has_blank(tactic_texts(tactics@)) && !is_mock && available
                    && assemble_spec(self.system, self.preamble@, self.statement@, tactic_texts(tactics@)) == Some(s@),
                None => tactics@.len() == 0 || has_blank(tactic_texts(tactics@)) || is_mock || !available
                    || assemble_spec(self.system, self.preamble@, self.statement@, tactic_texts(tactics@)) is None,
            },
    {
        if tactics.len() == 0 {
            return None;
        }
        let ghost tv = tactic_texts(tactics@);
        let mut i: usize = 0;
        while i < tactics.len()
            invariant
                i <= tactics@.len(),
                tv == tactic_texts(tactics@),
                forall|j: int| 0 <= j < i ==> trim(#[trigger] tv[j], white_pred()).len() > 0,
            decreases tactics@.len() - i,
        {
            if crate::exec::is_blank(tactics[i].as_str()) {
                assert(trim(tv[i as int], white_pred()).len() == 0);
                return None;
            }
            i = i + 1;
        }
        if is_mock || !available {
            return None;
        }
        self.assemble(tactics)
    }

    /// Whether a layered run confirms the replay: only a live run that passed
    /// every layer does.
    pub fn confirms(verdict: &GateVerdict) -> (r: bool)
        ensures
            r == (verdict.live && verdict.lexically_verified),
    {
        verdict.live && verdict.lexically_verified
    }
}

} // verus!
