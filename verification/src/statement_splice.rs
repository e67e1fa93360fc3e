//! Splice, don't compare: discard the model's statement and attach the proof
//! body it wrote for the target to the canonical header.
//!
//! The target is located by name; its body runs from its own top-level `:=`
//! to the next declaration's header or the first column-0 line, whichever
//! comes first. Everything else the model emitted is reported, never carried
//! into the result.
use vstd::prelude::*;
use crate::statement_preservation::{
    decl_positions, header_modifiers, header_start, header_start_spec, lemma_sanitize_keeps_positions,
    positions_from, positions_view, sanitize_chars, sanitize_spec, DiscardedDecl, SpliceVerdict,
};
use crate::text::{
    chars_of, class_pred, is_white, ltrim, owned, push_char, push_range, rtrim, skip_class, rskip_class,
    string_of_range, trim, trim_class, white_pred, word_list, words_view, CharClass,
};

verus! {

/// `x` clamped to `[0, n]`.
pub open spec fn clamp(x: int, n: int) -> int {
    if x < 0 { 0 } else if x > n { n } else { x }
}

/// The model of a [`DiscardedDecl`].
pub ghost struct SDiscard {
    pub name: Seq<char>,
    pub position: Seq<char>,
    pub source: Seq<char>,
}

/// The models of discarded declarations.
pub open spec fn discards_view(v: Seq<DiscardedDecl>) -> Seq<SDiscard> {
    v.map_values(|d: DiscardedDecl| SDiscard { name: d.name@, position: d.position@, source: d.source@ })
}

/// The model of a splice outcome.
pub ghost struct SSplice {
    pub verdict: SpliceVerdict,
    pub spliced: Option<Seq<char>>,
    pub preamble: Seq<SDiscard>,
    pub tail: Seq<SDiscard>,
    pub findings: Seq<Seq<char>>,
}

/// A fail-closed outcome with one finding.
pub open spec fn splice_fail(v: SpliceVerdict, msg: Seq<char>) -> SSplice {
    SSplice { verdict: v, spliced: None, preamble: Seq::empty(), tail: Seq::empty(), findings: seq![msg] }
}

/// The first located declaration of `ps[i..]` named `name`.
pub open spec fn first_pos_named(ps: Seq<(Seq<char>, int, int)>, name: Seq<char>, i: int) -> Option<int>
    decreases ps.len() - i,
{
    if i < 0 || i >= ps.len() {
        None
    } else if ps[i].0 == name {
        Some(i)
    } else {
        first_pos_named(ps, name, i + 1)
    }
}

/// The first position in `[i, end)` just after a newline whose next
/// character is not whitespace, or `end`.
pub open spec fn col0_from(raw: Seq<char>, i: int, end: int) -> int
    decreases end - i,
{
    if i < 0 || i >= end {
        end
    } else if raw[i] == '\n' && i + 1 < end && !is_white(raw[i + 1]) {
        i + 1
    } else {
        col0_from(raw, i + 1, end)
    }
}

/// Where a top-level command resumes in `raw[start..end]`: the first line
/// starting in column 0 after the body's opening line, or the (clamped) end.
pub open spec fn column_zero_spec(raw: Seq<char>, start: int, end: int) -> int {
    let e = clamp(end, raw.len() as int);
    col0_from(raw, clamp(start, e), e)
}

/// Where the header of located declaration `ps[i]` starts (floor `floor`).
pub open spec fn header_of(raw: Seq<char>, ps: Seq<(Seq<char>, int, int)>, i: int, floor: int) -> int {
    header_start_spec(raw, clamp(ps[i].1, raw.len() as int), floor)
}

/// The source of auxiliary declaration `ps[i]` (before the target at `idx`):
/// from its header to the next declaration's header.
pub open spec fn aux_source(raw: Seq<char>, ps: Seq<(Seq<char>, int, int)>, i: int) -> Seq<char> {
    let lo = header_of(raw, ps, i, 0);
    let h = header_of(raw, ps, i + 1, lo);
    let hi = if h > lo { h } else { lo };
    trim(raw.subrange(clamp(lo, raw.len() as int), clamp(hi, raw.len() as int)), white_pred())
}

/// The finding of an auxiliary declaration left out.
pub open spec fn aux_msg(name: Seq<char>) -> Seq<char> {
    "splice: auxiliary declaration `"@ + name
        + "` preceded the target and was NOT spliced in (audit it before using `spliced_with_preamble`)"@
}

/// The finding that heads every successful splice.
pub open spec fn discard_msg(name: Seq<char>) -> Seq<char> {
    "splice: discarded the model's own statement for `"@ + name
        + "` and re-attached its proof body to the canonical header (drift is structurally impossible)"@
}

/// The finding of trailing column-0 material dropped.
pub open spec fn col0_msg() -> Seq<char> {
    "splice: dropped column-0 material trailing the proof body (the mined version kept this VERBATIM and unaudited)"@
}

/// The finding of a trailing declaration dropped.
pub open spec fn dropped_msg(name: Seq<char>) -> Seq<char> {
    "splice: trailing declaration `"@ + name + "` was DROPPED, not carried over unaudited"@
}

/// Whether a (left-trimmed) body opens a tactic block: it is `by`, or `by`
/// followed by whitespace.
pub open spec fn is_tactic_body(t: Seq<char>) -> bool {
    t == seq!['b', 'y'] || (t.len() > 2 && t[0] == 'b' && t[1] == 'y' && is_white(t[2]))
}

/// The canonical header (trimmed, up to but not including its `:=`) and
/// the target name, when the canonical statement declares anything.
pub open spec fn canon_part(canonical: Seq<char>) -> Option<(Seq<char>, Seq<char>)> {
    let cps = positions_from(sanitize_spec(canonical), 0);
    if cps.len() == 0 {
        None
    } else {
        let clen = canonical.len() as int;
        Some((trim(canonical.subrange(clamp(cps[0].1, clen), clamp(cps[0].2, clen)), white_pred()), cps[0].0))
    }
}

/// Where the target's body can end at the latest: the next declaration's
/// header (never before the body start), or the end.
pub open spec fn hard_end_spec(model: Seq<char>, ps: Seq<(Seq<char>, int, int)>, idx: int, bs: int) -> int {
    if idx + 1 < ps.len() {
        let h = header_of(model, ps, idx + 1, bs);
        if h > bs { h } else { bs }
    } else {
        model.len() as int
    }
}

/// The spliced text for body `body`, or which fail-closed message applies.
pub open spec fn spliced_text(head: Seq<char>, body: Seq<char>) -> Result<Seq<char>, int> {
    if trim(body, white_pred()).len() == 0 {
        Err(0)
    } else {
        let t = ltrim(body, white_pred());
        let after = body.skip(body.len() - t.len() + 2);
        if is_tactic_body(t) {
            if trim(after, white_pred()).len() == 0 {
                Err(1)
            } else {
                Ok(head + " := by"@ + rtrim(after, white_pred()) + seq!['\n'])
            }
        } else {
            Ok(head + " := "@ + trim(body, white_pred()) + seq!['\n'])
        }
    }
}

/// The declarations before the target, as discarded.
pub open spec fn aux_decls(model: Seq<char>, ps: Seq<(Seq<char>, int, int)>, idx: int) -> Seq<SDiscard> {
    Seq::new(idx as nat, |i: int| SDiscard { name: ps[i].0, position: "before"@, source: aux_source(model, ps, i) })
}

/// The trailing column-0 material, if any.
pub open spec fn col_tail(model: Seq<char>, soft: int, hard: int) -> Seq<SDiscard> {
    let n = model.len() as int;
    let src = trim(model.subrange(clamp(soft, n), clamp(hard, n)), white_pred());
    if soft < hard && src.len() > 0 {
        seq![SDiscard { name: "<trailing>"@, position: "after"@, source: src }]
    } else {
        Seq::empty()
    }
}

/// The first trailing declaration, with everything after it, if any.
pub open spec fn decl_tail(model: Seq<char>, ps: Seq<(Seq<char>, int, int)>, idx: int) -> Seq<SDiscard> {
    if idx + 1 < ps.len() {
        let lo = header_of(model, ps, idx + 1, 0);
        seq![SDiscard {
            name: ps[idx + 1].0,
            position: "after"@,
            source: trim(model.subrange(clamp(lo, model.len() as int), model.len() as int), white_pred()),
        }]
    } else {
        Seq::empty()
    }
}

/// The outcome once the target `ps[idx]` is known to have a top-level `:=`
/// ending at `bs`.
pub open spec fn body_outcome(
    head: Seq<char>,
    cname: Seq<char>,
    model: Seq<char>,
    ps: Seq<(Seq<char>, int, int)>,
    idx: int,
    bs: int,
) -> SSplice {
    let n = model.len() as int;
    let hard = hard_end_spec(model, ps, idx, bs);
    let soft = column_zero_spec(model, bs, hard);
    let body = model.subrange(clamp(bs, n), clamp(soft, n));
    match spliced_text(head, body) {
        Err(k) => if k == 0 {
            splice_fail(SpliceVerdict::NoProofBody, "splice: declaration `"@ + cname + "` has an empty proof body (fail-closed)"@)
        } else {
            splice_fail(SpliceVerdict::NoProofBody, "splice: declaration `"@ + cname + "` is `:= by` with no tactics (fail-closed)"@)
        },
        Ok(sp) => {
            let pre = aux_decls(model, ps, idx);
            let ct = col_tail(model, soft, hard);
            let dt = decl_tail(model, ps, idx);
            SSplice {
                verdict: SpliceVerdict::Spliced,
                spliced: Some(sp),
                preamble: pre,
                tail: ct + dt,
                findings: seq![discard_msg(cname)] + pre.map_values(|d: SDiscard| aux_msg(d.name))
                    + ct.map_values(|d: SDiscard| col0_msg()) + dt.map_values(|d: SDiscard| dropped_msg(d.name)),
            }
        },
    }
}

/// What splicing `model` onto `canonical` yields.
pub open spec fn splice_spec(canonical: Seq<char>, model: Seq<char>) -> SSplice {
    match canon_part(canonical) {
        None => splice_fail(
            SpliceVerdict::CanonicalUnparsable,
            "splice: canonical statement did not parse into a `theorem`/`lemma` signature (fail-closed: nothing to splice onto)"@,
        ),
        Some((head, cname)) => {
            let san = sanitize_spec(model);
            let ps = positions_from(san, 0);
            match first_pos_named(ps, cname, 0) {
                None => splice_fail(
                    SpliceVerdict::TargetNotFound,
                    "splice: the model output declares no `"@ + cname + "` — nothing to splice (fail-closed)"@,
                ),
                Some(idx) => {
                    let se = ps[idx].2;
                    if !(0 <= se && se + 1 < san.len() && san[se] == ':' && san[se + 1] == '=') {
                        splice_fail(
                            SpliceVerdict::NoProofBody,
                            "splice: declaration `"@ + cname + "` has no top-level `:=` proof body (fail-closed)"@,
                        )
                    } else {
                        body_outcome(head, cname, model, ps, idx, se + 2)
                    }
                },
            }
        },
    }
}

/// The result of [`splice_canonical_statement`].
#[derive(Debug, Clone, PartialEq, Eq)]
pub struct SpliceOutcome {
    /// The structured verdict.
    pub verdict: SpliceVerdict,
    /// The canonical header with the model's proof body, and nothing else;
    /// `None` unless spliced.
    pub spliced: Option<String>,
    /// Declarations the model emitted before the target (not spliced in).
    pub preamble: Vec<DiscardedDecl>,
    /// Material the model emitted after the target's proof body (dropped).
    pub discarded_tail: Vec<DiscardedDecl>,
    /// What was discarded and why.
    pub findings: Vec<String>,
}

/// The model of an optional string.
pub open spec fn opt_str(o: Option<String>) -> Option<Seq<char>> {
    match o {
        Some(s) => Some(s@),
        None => None,
    }
}

/// The model of a [`SpliceOutcome`].
pub open spec fn splice_view(o: SpliceOutcome) -> SSplice {
    SSplice {
        verdict: o.verdict,
        spliced: opt_str(o.spliced),
        preamble: discards_view(o.preamble@),
        tail: discards_view(o.discarded_tail@),
        findings: o.findings@.map_values(|f: String| f@),
    }
}

/// The auxiliary declarations, each right-trimmed and followed by a blank
/// line, in front of `body`.
pub open spec fn with_preamble_spec(pre: Seq<SDiscard>, n: int) -> Seq<char>
    decreases n,
{
    if n <= 0 {
        Seq::empty()
    } else {
        with_preamble_spec(pre, n - 1) + rtrim(pre[n - 1].source, white_pred()) + seq!['\n', '\n']
    }
}

impl SpliceOutcome {
    /// The splice with the model's auxiliary declarations re-attached in
    /// front; `None` unless spliced.
    pub fn spliced_with_preamble(&self) -> (r: Option<String>)
        ensures
            opt_str(r) == match opt_str(self.spliced) {
                Some(b) => Some(with_preamble_spec(discards_view(self.preamble@), self.preamble@.len() as int) + b),
                None => None::<Seq<char>>,
            },
    {
        match &self.spliced {
            None => None,
            Some(body) => {
                let ghost pv = discards_view(self.preamble@);
                let mut out = String::new();
                let mut i: usize = 0;
                while i < self.preamble.len()
                    invariant
                        i <= self.preamble@.len(),
                        pv == discards_view(self.preamble@),
                        out@ == with_preamble_spec(pv, i as int),
                    decreases self.preamble@.len() - i,
                {
                    let src = chars_of(self.preamble[i].source.as_str());
                    let e = rskip_class(&src, 0, src.len(), CharClass::White);
                    proof {
                        assert(class_pred(CharClass::White) == white_pred());
                        assert(src@.subrange(0, src@.len() as int) == src@);
                        assert(pv[i as int].source == self.preamble@[i as int].source@);
                    }
                    push_range(&mut out, &src, 0, e);
                    push_char(&mut out, '\n');
                    push_char(&mut out, '\n');
                    assert(out@ =~= with_preamble_spec(pv, i + 1));
                    i = i + 1;
                }
                let mut r = out;
                r.append(body.as_str());
                Some(r)
            },
        }
    }
}

/// A fail-closed outcome with one finding.
fn fail_outcome(v: SpliceVerdict, msg: String) -> (r: SpliceOutcome)
    ensures
        splice_view(r) == splice_fail(v, msg@),
{
    let mut f: Vec<String> = Vec::new();
    f.push(msg);
    let r = SpliceOutcome { verdict: v, spliced: None, preamble: Vec::new(), discarded_tail: Vec::new(), findings: f };
    assert(splice_view(r).findings =~= seq![msg@]);
    assert(splice_view(r).preamble =~= Seq::<SDiscard>::empty());
    assert(splice_view(r).tail =~= Seq::<SDiscard>::empty());
    r
}

/// [`column_zero_spec`] computed.
fn column_zero_cut(raw: &Vec<char>, start: usize, end: usize) -> (r: usize)
    ensures
        r as int == column_zero_spec(raw@, start as int, end as int),
        clamp(start as int, clamp(end as int, raw@.len() as int)) <= r <= raw@.len(),
{
    let e = if end < raw.len() { end } else { raw.len() };
    let mut i: usize = if start < e { start } else { e };
    while i < e
        invariant
            i <= e <= raw@.len(),
            e as int == clamp(end as int, raw@.len() as int),
            clamp(start as int, e as int) <= i,
            col0_from(raw@, clamp(start as int, e as int), e as int) == col0_from(raw@, i as int, e as int),
        decreases e - i,
    {
        if raw[i] == '\n' && i + 1 < e && !crate::text::char_is_whitespace(raw[i + 1]) {
            return i + 1;
        }
        i = i + 1;
    }
    e
}

/// The window `raw[lo..hi]` trimmed, as a string.
fn trimmed_range(raw: &Vec<char>, lo: usize, hi: usize) -> (r: String)
    requires
        lo <= hi <= raw@.len(),
    ensures
        r@ == trim(raw@.subrange(lo as int, hi as int), white_pred()),
{
    let (a, b) = trim_class(raw, lo, hi, CharClass::White);
    assert(class_pred(CharClass::White) == white_pred());
    string_of_range(raw, a, b)
}

/// The first located declaration named `name`.
fn find_named(ps: &Vec<crate::statement_preservation::DeclPos>, name: &String) -> (r: Option<usize>)
    ensures
        match r {
            Some(i) => i < ps@.len() && first_pos_named(positions_view(ps@), name@, 0) == Some(i as int),
            None => first_pos_named(positions_view(ps@), name@, 0) is None,
        },
{
    let ghost pv = positions_view(ps@);
    let mut i: usize = 0;
    while i < ps.len()
        invariant
            i <= ps@.len(),
            pv == positions_view(ps@),
            first_pos_named(pv, name@, 0) == first_pos_named(pv, name@, i as int),
        decreases ps@.len() - i,
    {
        assert(pv[i as int].0 == ps@[i as int].name@);
        if crate::text::str_eq(ps[i].name.as_str(), name.as_str()) {
            return Some(i);
        }
        i = i + 1;
    }
    None
}

/// [`canon_part`] computed.
fn canonical_head(canonical: &str) -> (r: Option<(String, String)>)
    ensures
        match r {
            Some((h, n)) => canon_part(canonical@) == Some((h@, n@)),
            None => canon_part(canonical@) is None,
        },
{
    let raw = chars_of(canonical);
    let san = sanitize_chars(&raw);
    let cps = decl_positions(&san);
    if cps.len() == 0 {
        return None;
    }
    let ghost cpv = positions_view(cps@);
    assert(cpv[0] == (cps@[0].name@, cps@[0].kw_start as int, cps@[0].sig_end as int));
    proof {
        crate::statement_preservation::lemma_first_position(san@, 0);
        lemma_sanitize_keeps_positions(canonical@);
    }
    let n = raw.len();
    let lo = if cps[0].kw_start < n { cps[0].kw_start } else { n };
    let hi = if cps[0].sig_end < n { cps[0].sig_end } else { n };
    let head = trimmed_range(&raw, lo, hi);
    Some((head, cps[0].name.clone()))
}

/// [`spliced_text`] of `raw[lo..hi]`.
#[verifier::spinoff_prover]
fn splice_text(head: &String, raw: &Vec<char>, lo: usize, hi: usize) -> (r: Result<String, u8>)
    requires
        lo <= hi <= raw@.len(),
    ensures
        match r {
            Ok(s) => spliced_text(head@, raw@.subrange(lo as int, hi as int)) == Ok::<Seq<char>, int>(s@),
            Err(k) => spliced_text(head@, raw@.subrange(lo as int, hi as int)) == Err::<Seq<char>, int>(k as int),
        },
{
    let ghost body = raw@.subrange(lo as int, hi as int);
    let (ta, tb) = trim_class(raw, lo, hi, CharClass::White);
    assert(class_pred(CharClass::White) == white_pred());
    if ta == tb {
        return Err(0);
    }
    let t0 = skip_class(raw, lo, hi, CharClass::White);
    let ghost t = raw@.subrange(t0 as int, hi as int);
    assert(t == ltrim(body, white_pred()));
    let tactic = (hi - t0 == 2 && raw[t0] == 'b' && raw[t0 + 1] == 'y')
        || (hi - t0 > 2 && raw[t0] == 'b' && raw[t0 + 1] == 'y' && crate::text::char_is_whitespace(raw[t0 + 2]));
    proof {
        if hi - t0 == 2 && raw@[t0 as int] == 'b' && raw@[t0 + 1] == 'y' {
            assert(t =~= seq!['b', 'y']);
        }
        if t.len() == 2 && t == seq!['b', 'y'] {
            assert(t[0] == 'b' && t[1] == 'y');
        }
        if t.len() > 0 {
            assert(t[0] == raw@[t0 as int]);
        }
        if t.len() > 1 {
            assert(t[1] == raw@[t0 + 1]);
        }
        if t.len() > 2 {
            assert(t[2] == raw@[t0 + 2]);
        }
    }
    assert(tactic == is_tactic_body(t));
    let mut out = String::new();
    if tactic {
        let a0 = t0 + 2;
        assert(body.skip(body.len() - t.len() + 2) =~= raw@.subrange(a0 as int, hi as int));
        let (aa, ab) = trim_class(raw, a0, hi, CharClass::White);
        if aa == ab {
            return Err(1);
        }
        let ae = rskip_class(raw, a0, hi, CharClass::White);
        out.append(head.as_str());
        out.append(" := by");
        push_range(&mut out, raw, a0, ae);
        push_char(&mut out, '\n');
        assert(raw@.subrange(a0 as int, ae as int) == rtrim(body.skip(body.len() - t.len() + 2), white_pred()));
        assert(out@ =~= head@ + " := by"@ + rtrim(body.skip(body.len() - t.len() + 2), white_pred()) + seq!['\n']);
        assert(trim(body.skip(body.len() - t.len() + 2), white_pred()).len() != 0);
    } else {
        out.append(head.as_str());
        out.append(" := ");
        push_range(&mut out, raw, ta, tb);
        push_char(&mut out, '\n');
        assert(out@ =~= head@ + " := "@ + trim(body, white_pred()) + seq!['\n']);
    }
    assert(trim(body, white_pred()).len() != 0);
    Ok(out)
}

/// [`aux_decls`] computed, with their findings.
fn auxiliaries(
    raw: &Vec<char>,
    ps: &Vec<crate::statement_preservation::DeclPos>,
    idx: usize,
    mods: &Vec<Vec<char>>,
) -> (r: Vec<DiscardedDecl>)
    requires
        idx < ps@.len(),
        words_view(mods@) == header_modifiers(),
    ensures
        discards_view(r@) == aux_decls(raw@, positions_view(ps@), idx as int),
{
    let ghost pv = positions_view(ps@);
    let n = raw.len();
    let mut preamble: Vec<DiscardedDecl> = Vec::new();
    let mut i: usize = 0;
    while i < idx
        invariant
            i <= idx < ps@.len(),
            pv == positions_view(ps@),
            n == raw@.len(),
            words_view(mods@) == header_modifiers(),
            discards_view(preamble@) == Seq::new(
                i as nat,
                |k: int| SDiscard { name: pv[k].0, position: "before"@, source: aux_source(raw@, pv, k) },
            ),
        decreases idx - i,
    {
        assert(pv[i as int] == (ps@[i as int].name@, ps@[i as int].kw_start as int, ps@[i as int].sig_end as int));
        assert(pv[i + 1] == (ps@[i + 1].name@, ps@[i + 1].kw_start as int, ps@[i + 1].sig_end as int));
        let lo = header_start(raw, ps[i].kw_start, 0, mods);
        let h = header_start(raw, ps[i + 1].kw_start, lo, mods);
        let hi = if h > lo { h } else { lo };
        let l2 = if lo < n { lo } else { n };
        let h2 = if hi < n { hi } else { n };
        let src = trimmed_range(raw, l2, h2);
        let ghost d = SDiscard { name: ps@[i as int].name@, position: "before"@, source: src@ };
        let ghost p0 = discards_view(preamble@);
        preamble.push(DiscardedDecl { name: ps[i].name.clone(), position: "before", source: src });
        assert(discards_view(preamble@) =~= p0.push(d));
        i = i + 1;
    }
    assert(discards_view(preamble@) =~= aux_decls(raw@, pv, idx as int));
    preamble
}

/// The findings of a splice.
fn splice_findings(cname: &String, pre: &Vec<DiscardedDecl>, tail_col: bool, next: Option<&String>) -> (r: Vec<String>)
    ensures
        r@.map_values(|f: String| f@) == seq![discard_msg(cname@)] + discards_view(pre@).map_values(|d: SDiscard| aux_msg(d.name))
            + (if tail_col { seq![col0_msg()] } else { Seq::empty() })
            + (match next { Some(nm) => seq![dropped_msg(nm@)], None => Seq::empty() }),
{
    let mut findings: Vec<String> = Vec::new();
    let mut m = owned("splice: discarded the model's own statement for `");
    m.append(cname.as_str());
    m.append("` and re-attached its proof body to the canonical header (drift is structurally impossible)");
    findings.push(m);
    let ghost pv = discards_view(pre@);
    let mut i: usize = 0;
    while i < pre.len()
        invariant
            i <= pre@.len(),
            pv == discards_view(pre@),
            findings@.map_values(|f: String| f@) == seq![discard_msg(cname@)] + pv.take(i as int).map_values(
                |d: SDiscard| aux_msg(d.name),
            ),
        decreases pre@.len() - i,
    {
        let ghost f0 = findings@.map_values(|f: String| f@);
        let mut am = owned("splice: auxiliary declaration `");
        am.append(pre[i].name.as_str());
        am.append("` preceded the target and was NOT spliced in (audit it before using `spliced_with_preamble`)");
        findings.push(am);
        assert(pv[i as int].name == pre@[i as int].name@);
        assert(findings@.map_values(|f: String| f@) =~= f0.push(aux_msg(pv[i as int].name)));
        assert(pv.take(i + 1).map_values(|d: SDiscard| aux_msg(d.name)) =~= pv.take(i as int).map_values(
            |d: SDiscard| aux_msg(d.name),
        ).push(aux_msg(pv[i as int].name)));
        i = i + 1;
    }
    assert(pv.take(pre@.len() as int) == pv);
    let ghost f1 = findings@.map_values(|f: String| f@);
    if tail_col {
        findings.push(owned("splice: dropped column-0 material trailing the proof body (the mined version kept this VERBATIM and unaudited)"));
    }
    assert(findings@.map_values(|f: String| f@) =~= f1 + (if tail_col { seq![col0_msg()] } else { Seq::<Seq<char>>::empty() }));
    let ghost f2 = findings@.map_values(|f: String| f@);
    match next {
        Some(nm) => {
            let mut dm = owned("splice: trailing declaration `");
            dm.append(nm.as_str());
            dm.append("` was DROPPED, not carried over unaudited");
            findings.push(dm);
            assert(findings@.map_values(|f: String| f@) =~= f2 + seq![dropped_msg(nm@)]);
        },
        None => {
            assert(findings@.map_values(|f: String| f@) =~= f2 + Seq::<Seq<char>>::empty());
        },
    }
    findings
}

/// [`body_outcome`] computed.
#[verifier::spinoff_prover]
fn splice_at(
    head: &String,
    cname: &String,
    raw: &Vec<char>,
    ps: &Vec<crate::statement_preservation::DeclPos>,
    idx: usize,
    bs: usize,
) -> (r: SpliceOutcome)
    requires
        idx < ps@.len(),
        bs <= raw@.len(),
    ensures
        splice_view(r) == body_outcome(head@, cname@, raw@, positions_view(ps@), idx as int, bs as int),
{
    let ghost pv = positions_view(ps@);
    let n = raw.len();
    let mods = word_list(&["private", "protected", "noncomputable", "partial", "unsafe", "scoped", "local"]);
    assert(words_view(mods@) =~= header_modifiers());
    let has_next = idx < ps.len() - 1;
    let hard = if has_next {
        assert(pv[idx + 1] == (ps@[idx + 1].name@, ps@[idx + 1].kw_start as int, ps@[idx + 1].sig_end as int));
        let h = header_start(raw, ps[idx + 1].kw_start, bs, &mods);
        if h > bs { h } else { bs }
    } else {
        n
    };
    assert(hard as int == hard_end_spec(raw@, pv, idx as int, bs as int));
    let soft = column_zero_cut(raw, bs, hard);
    let b_hi = if soft < n { soft } else { n };
    let st = splice_text(head, raw, bs, b_hi);
    match st {
        Err(k) => {
            let mut m = owned("splice: declaration `");
            m.append(cname.as_str());
            if k == 0 {
                m.append("` has an empty proof body (fail-closed)");
            } else {
                m.append("` is `:= by` with no tactics (fail-closed)");
            }
            fail_outcome(SpliceVerdict::NoProofBody, m)
        },
        Ok(sp) => {
            let pre = auxiliaries(raw, ps, idx, &mods);
            let mut tail: Vec<DiscardedDecl> = Vec::new();
            let s2 = if soft < n { soft } else { n };
            let h3 = if hard < n { hard } else { n };
            let mut col = false;
            if soft < hard {
                let src = trimmed_range(raw, s2, if h3 < s2 { s2 } else { h3 });
                if !src.as_str().is_empty() {
                    col = true;
                    tail.push(DiscardedDecl { name: owned("<trailing>"), position: "after", source: src });
                }
            }
            let ghost ct = discards_view(tail@);
            assert(ct =~= col_tail(raw@, soft as int, hard as int));
            let mut next: Option<&String> = None;
            if has_next {
                let lo = header_start(raw, ps[idx + 1].kw_start, 0, &mods);
                let l2 = if lo < n { lo } else { n };
                let src = trimmed_range(raw, l2, n);
                next = Some(&ps[idx + 1].name);
                tail.push(DiscardedDecl { name: ps[idx + 1].name.clone(), position: "after", source: src });
            }
            assert(discards_view(tail@) =~= ct + decl_tail(raw@, pv, idx as int));
            let findings = splice_findings(cname, &pre, col, next);
            assert(ct.map_values(|d: SDiscard| col0_msg()) =~= (if col { seq![col0_msg()] } else { Seq::<Seq<char>>::empty() }));
            assert(decl_tail(raw@, pv, idx as int).map_values(|d: SDiscard| dropped_msg(d.name)) =~= (match next {
                Some(nm) => seq![dropped_msg(nm@)],
                None => Seq::<Seq<char>>::empty(),
            }));
            let r = SpliceOutcome {
                verdict: SpliceVerdict::Spliced,
                spliced: Some(sp),
                preamble: pre,
                discarded_tail: tail,
                findings,
            };
            assert(splice_view(r).findings =~= body_outcome(head@, cname@, raw@, pv, idx as int, bs as int).findings);
            r
        },
    }
}

/// Discard the model's statement and splice the proof body it wrote for the
/// target onto the canonical header. The target is found by name; its own
/// top-level `:=` starts the body, which ends at the next declaration's
/// header or at the first column-0 line. Tactic mode (`by`) and term mode
/// are kept as the model wrote them. Every other declaration or trailing
/// command is reported, never spliced in; anything but a spliced result is
/// fail-closed (`spliced` is `None`).
pub fn splice_canonical_statement(canonical_statement: &str, model_output: &str) -> (r: SpliceOutcome)
    ensures
        splice_view(r) == splice_spec(canonical_statement@, model_output@),
{
    let hc = canonical_head(canonical_statement);
    if hc.is_none() {
        return fail_outcome(
            SpliceVerdict::CanonicalUnparsable,
            owned("splice: canonical statement did not parse into a `theorem`/`lemma` signature (fail-closed: nothing to splice onto)"),
        );
    }
    let (head, cname) = hc.unwrap();
    let raw = chars_of(model_output);
    let san = sanitize_chars(&raw);
    proof {
        lemma_sanitize_keeps_positions(model_output@);
    }
    let ps = decl_positions(&san);
    let ghost pv = positions_view(ps@);
    let n = raw.len();
    let found = find_named(&ps, &cname);
    if found.is_none() {
        let mut m = owned("splice: the model output declares no `");
        m.append(cname.as_str());
        m.append("` — nothing to splice (fail-closed)");
        return fail_outcome(SpliceVerdict::TargetNotFound, m);
    }
    let idx = found.unwrap();
    assert(pv[idx as int] == (ps@[idx as int].name@, ps@[idx as int].kw_start as int, ps@[idx as int].sig_end as int));
    let se = ps[idx].sig_end;
    if !(se < n && se + 1 < n && san[se] == ':' && san[se + 1] == '=') {
        let mut m = owned("splice: declaration `");
        m.append(cname.as_str());
        m.append("` has no top-level `:=` proof body (fail-closed)");
        return fail_outcome(SpliceVerdict::NoProofBody, m);
    }
    splice_at(&head, &cname, &raw, &ps, idx, se + 2)
}

/// Drift is structurally impossible: whatever a successful splice yields
/// begins with the canonical header, followed by ` := `.
pub proof fn lemma_splice_keeps_canonical_header(canonical: Seq<char>, model: Seq<char>)
    requires
        splice_spec(canonical, model).verdict == SpliceVerdict::Spliced,
    ensures
        canon_part(canonical) is Some,
        splice_spec(canonical, model).spliced is Some,
        ({
            let head = canon_part(canonical)->Some_0.0;
            let sp = splice_spec(canonical, model).spliced->Some_0;
            head.len() + 4 <= sp.len() && sp.take(head.len() + 4int) == head + " := "@
        }),
{
    reveal_strlit(" := by");
    reveal_strlit(" := ");
    let (head, cname) = canon_part(canonical)->Some_0;
    let san = sanitize_spec(model);
    let ps = positions_from(san, 0);
    let idx = first_pos_named(ps, cname, 0)->Some_0;
    let se = ps[idx].2;
    let n = model.len() as int;
    let hard = hard_end_spec(model, ps, idx, se + 2);
    let soft = column_zero_spec(model, se + 2, hard);
    let body = model.subrange(clamp(se + 2, n), clamp(soft, n));
    let sp = spliced_text(head, body)->Ok_0;
    assert(sp.take(head.len() + 4int) =~= head + " := "@);
}

} // verus!
