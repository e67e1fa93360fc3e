//! Lean goal states: parsing the text Lean prints for a proof state into
//! goals (hypotheses and a target), and rendering them back.
//!
//! The parser is total: blank input, a "no goals" banner and outright
//! garbage all give the empty state. Goals are split on blank lines after a
//! target and on `case` markers; a hypothesis line binds the words before
//! its first `:` to the trimmed text after it; the target is the text after
//! the first turnstile (`⊢` or `|-`) plus any continuation lines.
use vstd::prelude::*;
use crate::exec::{opt_str_view, setting_value, Runner};
use crate::formal::{default_imports_spec, FormalSystem};
use crate::hypothesis_audit::window;
use crate::statement_signature::spells;
use crate::text::{
    chars_eq, chars_of, class_pred, contains_at, contains_spec, decimal, find_class, find_sub,
    find_sub_at, first_where, join, lemma_join_push, lemma_line_window, line_windows, line_windows_of,
    lines_spec, lowercase, owned, push_char, push_decimal, push_range, starts_with_at, string_of,
    string_of_range, to_lowercase, trim, trim_class, white_pred, words, words_of, words_view, CharClass,
};

verus! {

/// One hypothesis binding: names sharing a type.
#[derive(Debug, Clone, PartialEq, Eq)]
pub struct Hyp {
    /// The bound names, left of the `:`.
    pub names: Vec<String>,
    /// The type or proposition, right of the `:`.
    pub ty: String,
}

/// A single goal: its hypotheses and the target under the turnstile.
#[derive(Debug, Clone, PartialEq, Eq)]
pub struct Goal {
    pub hypotheses: Vec<Hyp>,
    pub target: String,
}

/// A goal state: zero or more goals (zero is "no goals").
#[derive(Debug, Clone, PartialEq, Eq)]
pub struct GoalState {
    pub goals: Vec<Goal>,
}

/// The model of a [`Hyp`].
pub ghost struct SHyp {
    pub names: Seq<Seq<char>>,
    pub ty: Seq<char>,
}

/// The model of a [`Goal`].
pub ghost struct SGoal {
    pub hyps: Seq<SHyp>,
    pub target: Seq<char>,
}

impl View for Hyp {
    type V = SHyp;

    open spec fn view(&self) -> SHyp {
        SHyp { names: self.names@.map_values(|n: String| n@), ty: self.ty@ }
    }
}

impl View for Goal {
    type V = SGoal;

    open spec fn view(&self) -> SGoal {
        SGoal { hyps: self.hypotheses@.map_values(|h: Hyp| h@), target: self.target@ }
    }
}

impl View for GoalState {
    type V = Seq<SGoal>;

    open spec fn view(&self) -> Seq<SGoal> {
        self.goals@.map_values(|g: Goal| g@)
    }
}

impl Default for GoalState {
    fn default() -> (r: Self)
        ensures
            r.goals@.len() == 0,
    {
        GoalState { goals: Vec::new() }
    }
}

// ===========================================================================
// Parsing
// ===========================================================================

/// `s` trimmed of whitespace.
pub open spec fn tr(s: Seq<char>) -> Seq<char> {
    trim(s, white_pred())
}

/// Whether `t` starts with `p`.
pub open spec fn starts(t: Seq<char>, p: Seq<char>) -> bool {
    p.len() <= t.len() && t.take(p.len() as int) == p
}

/// Whether a trimmed line is a `case` / `case'` marker.
pub open spec fn is_case_marker(t: Seq<char>) -> bool {
    t == "case"@ || starts(t, "case "@) || t == "case'"@ || starts(t, "case' "@)
}

/// Whether a line holds a turnstile.
pub open spec fn has_turnstile(t: Seq<char>) -> bool {
    contains_spec(t, "⊢"@) || contains_spec(t, "|-"@)
}

/// The block splitter's state: finished blocks, the block in progress, and
/// whether it has a target yet.
pub ghost struct BState {
    pub blocks: Seq<Seq<Seq<char>>>,
    pub cur: Seq<Seq<char>>,
    pub has: bool,
}

/// Close the block in progress (an empty one is dropped).
pub open spec fn finish(st: BState) -> BState {
    BState {
        blocks: if st.cur.len() > 0 { st.blocks.push(st.cur) } else { st.blocks },
        cur: Seq::empty(),
        has: false,
    }
}

/// One line of the splitter: a blank line closes a block that has its
/// target, a `case` marker closes any block, anything else joins the block
/// in progress (trimmed).
pub open spec fn bstep(st: BState, line: Seq<char>) -> BState {
    let t = tr(line);
    if t.len() == 0 {
        if st.has { finish(st) } else { st }
    } else if is_case_marker(t) {
        finish(st)
    } else {
        BState { blocks: st.blocks, cur: st.cur.push(t), has: st.has || has_turnstile(t) }
    }
}

/// The splitter after the lines `ls[..n]`.
pub open spec fn bupto(ls: Seq<Seq<char>>, n: int) -> BState
    decreases n,
{
    if n <= 0 {
        BState { blocks: Seq::empty(), cur: Seq::empty(), has: false }
    } else {
        bstep(bupto(ls, n - 1), ls[n - 1])
    }
}

/// The goal blocks of raw goal-state text.
pub open spec fn goal_blocks(raw: Seq<char>) -> Seq<Seq<Seq<char>>> {
    finish(bupto(lines_spec(raw), lines_spec(raw).len() as int)).blocks
}

/// A hypothesis line: the words before its first `:` bound to the trimmed
/// text after it; none without a `:` or without a name.
pub open spec fn parse_hyp_spec(line: Seq<char>) -> Option<SHyp> {
    match first_where(line, class_pred(CharClass::Only(':'))) {
        None => None,
        Some(k) => {
            let names = words(line.take(k));
            if names.len() == 0 { None } else { Some(SHyp { names, ty: tr(line.skip(k + 1)) }) }
        },
    }
}

/// The hypotheses of the lines `ls[..n]`.
pub open spec fn hyps_upto(ls: Seq<Seq<char>>, n: int) -> Seq<SHyp>
    decreases n,
{
    if n <= 0 {
        Seq::empty()
    } else {
        match parse_hyp_spec(ls[n - 1]) {
            Some(h) => hyps_upto(ls, n - 1).push(h),
            None => hyps_upto(ls, n - 1),
        }
    }
}

/// The first line of `b[j..]` with a turnstile.
pub open spec fn first_turnstile(b: Seq<Seq<char>>, j: int) -> Option<int>
    decreases b.len() - j,
{
    if j < 0 || j >= b.len() {
        None
    } else if has_turnstile(b[j]) {
        Some(j)
    } else {
        first_turnstile(b, j + 1)
    }
}

/// Just past the earliest turnstile of `line`.
pub open spec fn turnstile_end(line: Seq<char>) -> Option<int> {
    match (find_sub(line, "⊢"@), find_sub(line, "|-"@)) {
        (Some(a), Some(b)) => if b < a { Some(b + "|-"@.len()) } else { Some(a + "⊢"@.len()) },
        (Some(a), None) => Some(a + "⊢"@.len()),
        (None, Some(b)) => Some(b + "|-"@.len()),
        (None, None) => None,
    }
}

/// The non-empty trimmed lines of `b[j..]`.
pub open spec fn rest_parts(b: Seq<Seq<char>>, j: int) -> Seq<Seq<char>>
    decreases b.len() - j,
{
    if j < 0 || j >= b.len() {
        Seq::empty()
    } else {
        (if tr(b[j]).len() > 0 { seq![tr(b[j])] } else { Seq::empty() }) + rest_parts(b, j + 1)
    }
}

/// A goal block: the lines before its first turnstile line give the
/// hypotheses; the target is the text after the turnstile plus the
/// continuation lines, joined by single spaces. No turnstile, no goal.
pub open spec fn parse_block_spec(b: Seq<Seq<char>>) -> Option<SGoal> {
    match first_turnstile(b, 0) {
        None => None,
        Some(i) => match turnstile_end(b[i]) {
            None => None,
            Some(e) => {
                let first = tr(b[i].skip(e));
                let parts = (if first.len() > 0 { seq![first] } else { Seq::empty() }) + rest_parts(b, i + 1);
                Some(SGoal { hyps: hyps_upto(b, i), target: join(parts, seq![' ']) })
            },
        },
    }
}

/// The goals of the blocks `bs[..n]`.
pub open spec fn goals_upto(bs: Seq<Seq<Seq<char>>>, n: int) -> Seq<SGoal>
    decreases n,
{
    if n <= 0 {
        Seq::empty()
    } else {
        match parse_block_spec(bs[n - 1]) {
            Some(g) => goals_upto(bs, n - 1).push(g),
            None => goals_upto(bs, n - 1),
        }
    }
}

/// Whether the (lowercased) text announces an empty state.
pub open spec fn no_goals_text(lowered: Seq<char>) -> bool {
    contains_spec(lowered, "no goals"@) || contains_spec(lowered, "goals accomplished"@)
}

/// The goal state of `raw`, whose lowercase form is `lowered`.
pub open spec fn parse_spec(raw: Seq<char>, lowered: Seq<char>) -> Seq<SGoal> {
    if tr(raw).len() == 0 || no_goals_text(lowered) {
        Seq::empty()
    } else {
        goals_upto(goal_blocks(raw), goal_blocks(raw).len() as int)
    }
}

// ===========================================================================
// Rendering
// ===========================================================================

/// One hypothesis line: `names : ty`.
pub open spec fn render_hyp(h: SHyp) -> Seq<char> {
    join(h.names, seq![' ']) + seq![' ', ':', ' '] + h.ty + seq!['\n']
}

/// The hypothesis lines of `hs[..n]`.
pub open spec fn render_hyps(hs: Seq<SHyp>, n: int) -> Seq<char>
    decreases n,
{
    if n <= 0 { Seq::empty() } else { render_hyps(hs, n - 1) + render_hyp(hs[n - 1]) }
}

/// Goal number `i`: a separating blank line after the first, a `case i+1`
/// marker when there are several, the hypotheses, and `⊢ target`.
pub open spec fn render_goal(g: SGoal, i: int, multi: bool) -> Seq<char> {
    (if i > 0 { seq!['\n'] } else { Seq::empty() })
        + (if multi { seq!['c', 'a', 's', 'e', ' '] + decimal((i + 1) as nat) + seq!['\n'] } else { Seq::empty() })
        + render_hyps(g.hyps, g.hyps.len() as int) + seq!['⊢', ' '] + g.target + seq!['\n']
}

/// The goals `gs[..n]` rendered.
pub open spec fn render_upto(gs: Seq<SGoal>, n: int) -> Seq<char>
    decreases n,
{
    if n <= 0 { Seq::empty() } else { render_upto(gs, n - 1) + render_goal(gs[n - 1], n - 1, gs.len() > 1) }
}

/// The rendering of a goal state (empty for no goals).
pub open spec fn render_spec(gs: Seq<SGoal>) -> Seq<char> {
    render_upto(gs, gs.len() as int)
}

// ===========================================================================
// Parsing, computed
// ===========================================================================

/// The models of blocks of lines.
pub open spec fn blocks_view(bs: Seq<Vec<Vec<char>>>) -> Seq<Seq<Seq<char>>> {
    bs.map_values(|b: Vec<Vec<char>>| words_view(b@))
}

/// [`is_case_marker`] computed.
fn case_marker(t: &Vec<char>) -> (r: bool)
    ensures
        r == is_case_marker(t@),
{
    let n = t.len();
    assert(t@.subrange(0, n as int) == t@);
    let c1 = chars_of("case ");
    let c2 = chars_of("case' ");
    spells(t, "case") || starts_with_at(t, 0, n, &c1) || spells(t, "case'") || starts_with_at(t, 0, n, &c2)
}

/// [`has_turnstile`] computed.
fn turnstile(t: &Vec<char>) -> (r: bool)
    ensures
        r == has_turnstile(t@),
{
    let n = t.len();
    assert(t@.subrange(0, n as int) == t@);
    let a = chars_of("⊢");
    let b = chars_of("|-");
    contains_at(t, 0, n, &a) || contains_at(t, 0, n, &b)
}

/// [`goal_blocks`] computed.
fn split_goal_blocks(v: &Vec<char>) -> (r: Vec<Vec<Vec<char>>>)
    ensures
        blocks_view(r@) == goal_blocks(v@),
{
    let ws = line_windows(v);
    let ghost ls = lines_spec(v@);
    let mut blocks: Vec<Vec<Vec<char>>> = Vec::new();
    let mut cur: Vec<Vec<char>> = Vec::new();
    let mut has = false;
    let mut i: usize = 0;
    assert(blocks_view(blocks@) =~= Seq::<Seq<Seq<char>>>::empty());
    assert(words_view(cur@) =~= Seq::<Seq<char>>::empty());
    while i < ws.len()
        invariant
            line_windows_of(v@, ws@),
            ws@.len() == ls.len(),
            ls == lines_spec(v@),
            i <= ws@.len(),
            (BState { blocks: blocks_view(blocks@), cur: words_view(cur@), has }) == bupto(ls, i as int),
        decreases ws@.len() - i,
    {
        let (a, b) = ws[i];
        proof {
            lemma_line_window(v@, ws@, i as int);
        }
        let (ta, tb) = trim_class(v, a, b, CharClass::White);
        assert(class_pred(CharClass::White) == white_pred());
        let t = window(v, ta, tb);
        let ghost st = bupto(ls, i as int);
        assert(t@ == tr(ls[i as int]));
        if t.len() == 0 {
            if has {
                if cur.len() > 0 {
                    let ghost b0 = blocks_view(blocks@);
                    let ghost c0 = words_view(cur@);
                    blocks.push(cur);
                    assert(blocks_view(blocks@) =~= b0.push(c0));
                    cur = Vec::new();
                }
                has = false;
                assert(words_view(cur@) =~= Seq::<Seq<char>>::empty());
            }
        } else if case_marker(&t) {
            if cur.len() > 0 {
                let ghost b0 = blocks_view(blocks@);
                let ghost c0 = words_view(cur@);
                blocks.push(cur);
                assert(blocks_view(blocks@) =~= b0.push(c0));
                cur = Vec::new();
            }
            has = false;
            assert(words_view(cur@) =~= Seq::<Seq<char>>::empty());
        } else {
            has = has || turnstile(&t);
            let ghost c0 = words_view(cur@);
            let ghost tv = t@;
            cur.push(t);
            assert(words_view(cur@) =~= c0.push(tv));
        }
        i = i + 1;
    }
    if cur.len() > 0 {
        let ghost b0 = blocks_view(blocks@);
        let ghost c0 = words_view(cur@);
        blocks.push(cur);
        assert(blocks_view(blocks@) =~= b0.push(c0));
    }
    blocks
}

/// The model of an optional hypothesis.
pub open spec fn opt_hyp(o: Option<Hyp>) -> Option<SHyp> {
    match o {
        Some(h) => Some(h@),
        None => None,
    }
}

/// Owned strings of character vectors.
fn strings_of(ws: &Vec<Vec<char>>) -> (r: Vec<String>)
    ensures
        r@.map_values(|s: String| s@) == words_view(ws@),
{
    let mut out: Vec<String> = Vec::new();
    let mut i: usize = 0;
    while i < ws.len()
        invariant
            i <= ws@.len(),
            out@.map_values(|s: String| s@) == words_view(ws@).take(i as int),
        decreases ws@.len() - i,
    {
        let ghost o0 = out@.map_values(|s: String| s@);
        let s = string_of(&ws[i]);
        assert(s@ == words_view(ws@)[i as int]);
        out.push(s);
        assert(out@.map_values(|x: String| x@) =~= o0.push(words_view(ws@)[i as int]));
        assert(words_view(ws@).take(i + 1) =~= words_view(ws@).take(i as int).push(words_view(ws@)[i as int]));
        i = i + 1;
    }
    assert(words_view(ws@).take(ws@.len() as int) == words_view(ws@));
    out
}

/// [`parse_hyp_spec`] computed.
fn parse_hyp(line: &Vec<char>) -> (r: Option<Hyp>)
    ensures
        opt_hyp(r) == parse_hyp_spec(line@),
{
    let n = line.len();
    assert(line@.subrange(0, n as int) == line@);
    let k = find_class(line, 0, n, CharClass::Only(':'));
    if k == n {
        return None;
    }
    let ws = words_of(line, 0, k);
    assert(line@.subrange(0, k as int) == line@.take(k as int));
    if ws.len() == 0 {
        assert(words_view(ws@).len() == 0);
        return None;
    }
    let (ta, tb) = trim_class(line, k + 1, n, CharClass::White);
    assert(class_pred(CharClass::White) == white_pred());
    assert(line@.subrange(k + 1, n as int) == line@.skip(k + 1));
    let names = strings_of(&ws);
    Some(Hyp { names, ty: string_of_range(line, ta, tb) })
}

/// [`turnstile_end`] computed.
fn turnstile_end_exec(line: &Vec<char>) -> (r: Option<usize>)
    ensures
        match r {
            Some(e) => turnstile_end(line@) == Some(e as int) && e <= line@.len(),
            None => turnstile_end(line@) is None,
        },
{
    let n = line.len();
    assert(line@.subrange(0, n as int) == line@);
    let a = chars_of("⊢");
    let b = chars_of("|-");
    match (find_sub_at(line, 0, n, &a), find_sub_at(line, 0, n, &b)) {
        (Some(x), Some(y)) => if y < x { Some(y + b.len()) } else { Some(x + a.len()) },
        (Some(x), None) => Some(x + a.len()),
        (None, Some(y)) => Some(y + b.len()),
        (None, None) => None,
    }
}

/// The model of an optional goal.
pub open spec fn opt_goal(o: Option<Goal>) -> Option<SGoal> {
    match o {
        Some(g) => Some(g@),
        None => None,
    }
}

/// [`parse_block_spec`] computed.
#[verifier::spinoff_prover]
fn parse_block(b: &Vec<Vec<char>>) -> (r: Option<Goal>)
    ensures
        opt_goal(r) == parse_block_spec(words_view(b@)),
{
    let ghost bv = words_view(b@);
    let mut i: usize = 0;
    while i < b.len() && !turnstile(&b[i])
        invariant
            i <= b@.len(),
            bv == words_view(b@),
            first_turnstile(bv, 0) == first_turnstile(bv, i as int),
        decreases b@.len() - i,
    {
        assert(bv[i as int] == b@[i as int]@);
        i = i + 1;
    }
    if i == b.len() {
        return None;
    }
    assert(bv[i as int] == b@[i as int]@);
    let mut hyps: Vec<Hyp> = Vec::new();
    let mut j: usize = 0;
    while j < i
        invariant
            j <= i < b@.len(),
            bv == words_view(b@),
            hyps@.map_values(|h: Hyp| h@) == hyps_upto(bv, j as int),
        decreases i - j,
    {
        assert(bv[j as int] == b@[j as int]@);
        let ghost h0 = hyps@.map_values(|h: Hyp| h@);
        if let Some(h) = parse_hyp(&b[j]) {
            let ghost hv = h@;
            hyps.push(h);
            assert(hyps@.map_values(|x: Hyp| x@) =~= h0.push(hv));
        }
        j = j + 1;
    }
    let line = &b[i];
    let e = match turnstile_end_exec(line) {
        Some(e) => e,
        None => {
            return None;
        },
    };
    let (fa, fb) = trim_class(line, e, line.len(), CharClass::White);
    assert(class_pred(CharClass::White) == white_pred());
    assert(line@.subrange(e as int, line@.len() as int) == line@.skip(e as int));
    let mut parts: Vec<Vec<char>> = Vec::new();
    if fb > fa {
        parts.push(window(line, fa, fb));
    }
    let ghost p0 = words_view(parts@);
    assert(p0 =~= (if tr(bv[i as int].skip(e as int)).len() > 0 { seq![tr(bv[i as int].skip(e as int))] } else { Seq::<Seq<char>>::empty() }));
    let mut k: usize = i + 1;
    assert(p0 + rest_parts(bv, (i + 1) as int) =~= p0 + rest_parts(bv, (i + 1) as int));
    while k < b.len()
        invariant
            i < k <= b@.len(),
            bv == words_view(b@),
            words_view(parts@) + rest_parts(bv, k as int) == p0 + rest_parts(bv, (i + 1) as int),
        decreases b@.len() - k,
    {
        assert(bv[k as int] == b@[k as int]@);
        let (ta, tb) = trim_class(&b[k], 0, b[k].len(), CharClass::White);
        assert(class_pred(CharClass::White) == white_pred());
        assert(b@[k as int]@.subrange(0, b@[k as int]@.len() as int) == b@[k as int]@);
        let ghost w0 = words_view(parts@);
        if tb > ta {
            parts.push(window(&b[k], ta, tb));
            assert(words_view(parts@) =~= w0.push(tr(bv[k as int])));
        }
        assert(words_view(parts@) + rest_parts(bv, k + 1) =~= w0 + rest_parts(bv, k as int));
        k = k + 1;
    }
    assert(words_view(parts@) + Seq::<Seq<char>>::empty() =~= words_view(parts@));
    let target = crate::statement_signature::join_words(&parts);
    Some(Goal { hypotheses: hyps, target })
}

/// Parse goal-state text whose lowercase form `lowered` is given: empty for
/// blank text or a "no goals" / "goals accomplished" banner, else the goals
/// of its blocks.
pub fn parse_goal_state_lowered(raw: &str, lowered: &str) -> (r: GoalState)
    ensures
        r@ == parse_spec(raw@, lowered@),
{
    let v = chars_of(raw);
    let (a, b) = trim_class(&v, 0, v.len(), CharClass::White);
    assert(class_pred(CharClass::White) == white_pred());
    assert(v@.subrange(0, v@.len() as int) == v@);
    let lv = chars_of(lowered);
    assert(lv@.subrange(0, lv@.len() as int) == lv@);
    let n1 = chars_of("no goals");
    let n2 = chars_of("goals accomplished");
    if a == b || contains_at(&lv, 0, lv.len(), &n1) || contains_at(&lv, 0, lv.len(), &n2) {
        let r = GoalState { goals: Vec::new() };
        assert(r@ =~= Seq::<SGoal>::empty());
        return r;
    }
    let blocks = split_goal_blocks(&v);
    let ghost bv = blocks_view(blocks@);
    let mut goals: Vec<Goal> = Vec::new();
    let mut i: usize = 0;
    while i < blocks.len()
        invariant
            i <= blocks@.len(),
            bv == blocks_view(blocks@),
            goals@.map_values(|g: Goal| g@) == goals_upto(bv, i as int),
        decreases blocks@.len() - i,
    {
        assert(bv[i as int] == words_view(blocks@[i as int]@));
        let ghost g0 = goals@.map_values(|g: Goal| g@);
        if let Some(g) = parse_block(&blocks[i]) {
            let ghost gv = g@;
            goals.push(g);
            assert(goals@.map_values(|x: Goal| x@) =~= g0.push(gv));
        }
        i = i + 1;
    }
    GoalState { goals }
}

/// Parse Lean's goal-state text (see [`parse_goal_state_lowered`]); the
/// "no goals" banners are matched case-insensitively.
pub fn parse_lean_goal_state(raw: &str) -> (r: GoalState)
    ensures
        r@ == parse_spec(raw@, lowercase(raw@)),
{
    let lowered = to_lowercase(raw);
    parse_goal_state_lowered(raw, lowered.as_str())
}

/// One hypothesis line (see [`render_hyp`]).
fn render_hyp_line(h: &Hyp) -> (r: String)
    ensures
        r@ == render_hyp(h@),
{
    let ghost hn = h.names@.map_values(|n: String| n@);
    let mut nm: Vec<Vec<char>> = Vec::new();
    let mut k: usize = 0;
    while k < h.names.len()
        invariant
            k <= h.names@.len(),
            hn == h.names@.map_values(|n: String| n@),
            words_view(nm@) == hn.take(k as int),
        decreases h.names@.len() - k,
    {
        let c = chars_of(h.names[k].as_str());
        let ghost w0 = words_view(nm@);
        assert(c@ == hn[k as int]);
        nm.push(c);
        assert(words_view(nm@) =~= w0.push(hn[k as int]));
        assert(hn.take(k + 1) =~= hn.take(k as int).push(hn[k as int]));
        k = k + 1;
    }
    assert(hn.take(h.names@.len() as int) == hn);
    let mut out = crate::statement_signature::join_words(&nm);
    push_char(&mut out, ' ');
    push_char(&mut out, ':');
    push_char(&mut out, ' ');
    out.append(h.ty.as_str());
    push_char(&mut out, '\n');
    assert(out@ =~= render_hyp(h@));
    out
}

/// Goal number `i` (see [`render_goal`]).
fn render_one_goal(g: &Goal, i: usize, multi: bool) -> (r: String)
    requires
        i < usize::MAX,
    ensures
        r@ == render_goal(g@, i as int, multi),
{
    let mut out = String::new();
    if i > 0 {
        push_char(&mut out, '\n');
    }
    if multi {
        push_char(&mut out, 'c');
        push_char(&mut out, 'a');
        push_char(&mut out, 's');
        push_char(&mut out, 'e');
        push_char(&mut out, ' ');
        push_decimal(&mut out, i + 1);
        push_char(&mut out, '\n');
    }
    let ghost o1 = out@;
    let ghost hv = g@.hyps;
    let mut j: usize = 0;
    while j < g.hypotheses.len()
        invariant
            j <= g.hypotheses@.len(),
            hv == g.hypotheses@.map_values(|h: Hyp| h@),
            out@ == o1 + render_hyps(hv, j as int),
        decreases g.hypotheses@.len() - j,
    {
        assert(hv[j as int] == g.hypotheses@[j as int]@);
        let line = render_hyp_line(&g.hypotheses[j]);
        out.append(line.as_str());
        assert(out@ =~= o1 + render_hyps(hv, j + 1));
        j = j + 1;
    }
    push_char(&mut out, '⊢');
    push_char(&mut out, ' ');
    out.append(g.target.as_str());
    push_char(&mut out, '\n');
    assert(hv.len() == g.hypotheses@.len());
    assert(out@ =~= render_goal(g@, i as int, multi));
    out
}

impl GoalState {
    /// Whether there are no open goals.
    pub fn is_empty(&self) -> (r: bool)
        ensures
            r == (self@.len() == 0),
    {
        self.goals.len() == 0
    }

    /// Render the state back to Lean-shaped text: each goal's hypotheses one
    /// binding per line, then `⊢ target`; goals separated by a blank line
    /// and, when there are several, prefixed with `case N`. Empty for no
    /// goals.
    pub fn render(&self) -> (r: String)
        ensures
            r@ == render_spec(self@),
    {
        let ghost gv = self@;
        let multi = self.goals.len() > 1;
        let mut out = String::new();
        let mut i: usize = 0;
        while i < self.goals.len()
            invariant
                i <= self.goals@.len(),
                gv == self@,
                multi == (gv.len() > 1),
                out@ == render_upto(gv, i as int),
            decreases self.goals@.len() - i,
        {
            assert(gv[i as int] == self.goals@[i as int]@);
            let piece = render_one_goal(&self.goals[i], i, multi);
            out.append(piece.as_str());
            i = i + 1;
        }
        out
    }
}

// ===========================================================================
// The live extractor
// ===========================================================================

/// `import <m>` lines for the first `n` modules.
pub open spec fn import_lines(ms: Seq<Seq<char>>, n: int) -> Seq<char>
    decreases n,
{
    if n <= 0 || n > ms.len() { Seq::empty() } else { import_lines(ms, n - 1) + "import "@ + ms[n - 1] + "\n"@ }
}

/// The first `n` lines, each indented by two spaces and ended.
pub open spec fn indented_lines(ls: Seq<Seq<char>>, n: int) -> Seq<char>
    decreases n,
{
    if n <= 0 || n > ls.len() { Seq::empty() } else { indented_lines(ls, n - 1) + "  "@ + ls[n - 1] + "\n"@ }
}

/// The probe source: the default Lean imports, a blank line, a throwaway
/// theorem whose type is `subgoal`, each line of `attempt` indented into its
/// tactic block, and a closing `trace_state`.
pub open spec fn probe_source_spec(subgoal: Seq<char>, attempt: Seq<char>) -> Seq<char> {
    let ims = default_imports_spec(FormalSystem::Lean);
    let ls = lines_spec(attempt);
    import_lines(ims, ims.len() as int) + "\n"@ + "theorem __theoremata_probe__ : "@ + subgoal + " := by\n"@
        + indented_lines(ls, ls.len() as int) + "  trace_state\n"@
}

/// The run output the goal state is read from: stdout when it holds a
/// turnstile, else stderr when that does, else stdout.
pub open spec fn probe_output(stdout: Seq<char>, stderr: Seq<char>) -> Seq<char> {
    if contains_spec(stdout, "⊢"@) || contains_spec(stdout, "|-"@) {
        stdout
    } else if contains_spec(stderr, "⊢"@) || contains_spec(stderr, "|-"@) {
        stderr
    } else {
        stdout
    }
}

/// Whether a whole text holds a turnstile.
fn text_has_turnstile(s: &str) -> (r: bool)
    ensures
        r == (contains_spec(s@, "⊢"@) || contains_spec(s@, "|-"@)),
{
    let v = chars_of(s);
    turnstile(&v)
}

/// The goal-state extractor that runs Lean through a [`Runner`] on a probe
/// file and parses the goal state it prints.
#[derive(Debug, Clone)]
pub struct LeanGoalStateExtractor {
    /// How Lean is run (native, WSL, Docker).
    pub runner: Runner,
    /// The `lean` binary name or path.
    pub lean: String,
}

impl LeanGoalStateExtractor {
    /// An extractor with an explicit runner and binary.
    pub fn new(runner: Runner, lean: &str) -> (r: Self)
        ensures
            r.runner == runner,
            r.lean@ == lean@,
    {
        LeanGoalStateExtractor { runner, lean: owned(lean) }
    }

    /// A native extractor whose binary is the override when it is present
    /// and not blank, else `lean`.
    pub fn native_with(lean_override: Option<&str>) -> (r: Self)
        ensures
            r.runner == Runner::Native,
            r.lean@ == match setting_value(opt_str_view(lean_override)) {
                Some(v) => v,
                None => "lean"@,
            },
    {
        let lean = match lean_override {
            Some(v) => if !crate::exec::is_blank(v) { owned(v) } else { owned("lean") },
            None => owned("lean"),
        };
        LeanGoalStateExtractor { runner: Runner::Native, lean }
    }

    /// The Lean probe source for `subgoal` and `attempt` (see
    /// [`probe_source_spec`]); both are written as data into the file, never
    /// into a command line.
    pub fn probe_source(subgoal: &str, attempt: &str) -> (r: String)
        ensures
            r@ == probe_source_spec(subgoal@, attempt@),
    {
        proof {
            reveal_strlit("\n");
            reveal_strlit("import ");
            reveal_strlit("  ");
        }
        let ims = FormalSystem::Lean.default_imports();
        let ghost imv = default_imports_spec(FormalSystem::Lean);
        let mut src = String::new();
        let mut i: usize = 0;
        while i < ims.len()
            invariant
                i <= ims@.len(),
                ims@.len() == imv.len(),
                forall|j: int| 0 <= j < ims@.len() ==> #[trigger] ims@[j]@ == imv[j],
                src@ == import_lines(imv, i as int),
            decreases ims@.len() - i,
        {
            src.append("import ");
            src.append(ims[i].as_str());
            push_char(&mut src, '\n');
            proof {
                reveal_strlit("\n");
                reveal_strlit("import ");
            }
            assert(src@ =~= import_lines(imv, i + 1));
            i = i + 1;
        }
        push_char(&mut src, '\n');
        src.append("theorem __theoremata_probe__ : ");
        src.append(subgoal);
        src.append(" := by\n");
        let ghost pre = src@;
        let v = chars_of(attempt);
        let ws = line_windows(&v);
        let ghost ls = lines_spec(attempt@);
        assert(v@ == attempt@);
        assert forall|j: int| 0 <= j < ws@.len() implies #[trigger] ws@[j].0 <= ws@[j].1 <= v@.len()
            && v@.subrange(ws@[j].0 as int, ws@[j].1 as int) == ls[j] by {
            lemma_line_window(v@, ws@, j);
        }
        let mut k: usize = 0;
        while k < ws.len()
            invariant
                k <= ws@.len() == ls.len(),
                v@ == attempt@,
                ls == lines_spec(v@),
                forall|j: int| 0 <= j < ws@.len() ==> #[trigger] ws@[j].0 <= ws@[j].1 <= v@.len()
                    && v@.subrange(ws@[j].0 as int, ws@[j].1 as int) == ls[j],
                src@ == pre + indented_lines(ls, k as int),
            decreases ws@.len() - k,
        {
            let (a, b) = ws[k];
            src.append("  ");
            push_range(&mut src, &v, a, b);
            push_char(&mut src, '\n');
            proof {
                reveal_strlit("\n");
                reveal_strlit("  ");
            }
            assert(src@ =~= pre + indented_lines(ls, k + 1));
            k = k + 1;
        }
        src.append("  trace_state\n");
        proof {
            reveal_strlit("theorem __theoremata_probe__ : ");
            reveal_strlit(" := by\n");
            reveal_strlit("  trace_state\n");
        }
        assert(src@ =~= probe_source_spec(subgoal@, attempt@));
        src
    }

    /// The goal state of a finished probe run: [`parse_lean_goal_state`] of
    /// the output chosen by [`probe_output`].
    pub fn goal_state_from_run(stdout: &str, stderr: &str) -> (r: GoalState)
        ensures
            r@ == parse_spec(probe_output(stdout@, stderr@), lowercase(probe_output(stdout@, stderr@))),
    {
        if text_has_turnstile(stdout) {
            parse_lean_goal_state(stdout)
        } else if text_has_turnstile(stderr) {
            parse_lean_goal_state(stderr)
        } else {
            parse_lean_goal_state(stdout)
        }
    }

    /// What the extractor hands the retry loop for a dumped state: nothing
    /// for an empty state, else its rendering.
    pub fn extract_from(state: &GoalState) -> (r: Option<String>)
        ensures
            match r {
                Some(t) => state@.len() > 0 && t@ == render_spec(state@),
                None => state@.len() == 0,
            },
    {
        if state.is_empty() {
            None
        } else {
            Some(state.render())
        }
    }
}

} // verus!
