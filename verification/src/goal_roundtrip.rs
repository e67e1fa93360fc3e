//! Rendering a goal state and parsing the rendering back gives the same
//! goals, for every state whose texts are plain lines: names that are
//! single words (no whitespace, `:`, `⊢` or `|`, and not a `case` marker),
//! types and targets that are non-empty lines without surrounding
//! whitespace, and types without a turnstile.
use vstd::prelude::*;
use crate::goal_state::{
    bstep, bupto, finish, first_turnstile, goal_blocks, goals_upto, has_turnstile, hyps_upto, is_case_marker,
    parse_block_spec, parse_hyp_spec, parse_spec, render_goal, render_hyp, render_hyps, render_spec, render_upto,
    rest_parts, starts, tr, turnstile_end, BState, SGoal, SHyp,
};
use crate::text::{
    class_pred, contains_spec, decimal, digit_char, drop_cr, find_sub, first_where, is_char, is_white, join,
    lemma_decimal_nonempty, lemma_first_where_at, lines_spec, lowercase, ltrim, rtrim, white_pred, words, CharClass,
};

verus! {

// ===========================================================================
// Plain lines
// ===========================================================================

/// Whether `s` holds no line break.
pub open spec fn one_line(s: Seq<char>) -> bool {
    forall|i: int| 0 <= i < s.len() ==> s[i] != '\n'
}

/// A non-empty single line that neither starts nor ends with whitespace.
pub open spec fn clean_line(s: Seq<char>) -> bool {
    s.len() > 0 && one_line(s) && !is_white(s[0]) && !is_white(s.last())
}

/// A name: a non-empty word without `:`, `⊢` or `|`.
pub open spec fn name_ok(n: Seq<char>) -> bool {
    n.len() > 0 && forall|i: int| 0 <= i < n.len() ==> {
        let c = #[trigger] n[i];
        !is_white(c) && c != ':' && c != '⊢' && c != '|'
    }
}

/// A hypothesis that renders to a plain line.
pub open spec fn hyp_ok(h: SHyp) -> bool {
    &&& h.names.len() > 0
    &&& forall|k: int| 0 <= k < h.names.len() ==> name_ok(#[trigger] h.names[k])
    &&& h.names[0] != "case"@ && h.names[0] != "case'"@
    &&& clean_line(h.ty)
    &&& !has_turnstile(h.ty)
}

/// A goal whose hypotheses and target render to plain lines.
pub open spec fn goal_ok(g: SGoal) -> bool {
    &&& forall|k: int| 0 <= k < g.hyps.len() ==> hyp_ok(#[trigger] g.hyps[k])
    &&& clean_line(g.target)
}

/// A goal state whose goals all render to plain lines.
pub open spec fn state_ok(gs: Seq<SGoal>) -> bool {
    forall|i: int| 0 <= i < gs.len() ==> goal_ok(#[trigger] gs[i])
}

// ===========================================================================
// The rendering as lines
// ===========================================================================

/// The line of one hypothesis.
pub open spec fn hyp_line(h: SHyp) -> Seq<char> {
    join(h.names, seq![' ']) + seq![' ', ':', ' '] + h.ty
}

/// The line of a target.
pub open spec fn target_line(t: Seq<char>) -> Seq<char> {
    seq!['⊢', ' '] + t
}

/// The lines of the first `n` hypotheses.
pub open spec fn hyp_lines(hs: Seq<SHyp>, n: int) -> Seq<Seq<char>>
    decreases n,
{
    if n <= 0 { Seq::empty() } else { hyp_lines(hs, n - 1).push(hyp_line(hs[n - 1])) }
}

/// The block of a goal: its hypothesis lines and its target line.
pub open spec fn block_of(g: SGoal) -> Seq<Seq<char>> {
    hyp_lines(g.hyps, g.hyps.len() as int).push(target_line(g.target))
}

/// The `case` line of goal `i`.
pub open spec fn case_line(i: int) -> Seq<char> {
    seq!['c', 'a', 's', 'e', ' '] + decimal((i + 1) as nat)
}

/// The lines of goal `i`: a blank line after the first goal, its `case`
/// line when there are several, then its block.
pub open spec fn goal_lines(g: SGoal, i: int, multi: bool) -> Seq<Seq<char>> {
    (if i > 0 { seq![Seq::<char>::empty()] } else { Seq::empty() })
        + (if multi { seq![case_line(i)] } else { Seq::empty() })
        + block_of(g)
}

/// The lines of the first `n` goals.
pub open spec fn all_lines(gs: Seq<SGoal>, n: int) -> Seq<Seq<char>>
    decreases n,
{
    if n <= 0 { Seq::empty() } else { all_lines(gs, n - 1) + goal_lines(gs[n - 1], n - 1, gs.len() > 1) }
}

/// Lines joined, each ended by a line break.
pub open spec fn unlines(ls: Seq<Seq<char>>) -> Seq<char>
    decreases ls.len(),
{
    if ls.len() == 0 { Seq::empty() } else { ls[0] + seq!['\n'] + unlines(ls.drop_first()) }
}

proof fn lemma_unlines_append(a: Seq<Seq<char>>, b: Seq<Seq<char>>)
    ensures
        unlines(a + b) == unlines(a) + unlines(b),
    decreases a.len(),
{
    if a.len() == 0 {
        assert(a + b == b);
    } else {
        assert((a + b).drop_first() == a.drop_first() + b);
        assert((a + b)[0] == a[0]);
        lemma_unlines_append(a.drop_first(), b);
    }
}

proof fn lemma_unlines_one(x: Seq<char>)
    ensures
        unlines(seq![x]) == x + seq!['\n'],
{
    assert(seq![x].drop_first() == Seq::<Seq<char>>::empty());
    assert(unlines(Seq::<Seq<char>>::empty()) == Seq::<char>::empty());
    assert(x + seq!['\n'] + Seq::<char>::empty() =~= x + seq!['\n']);
}

proof fn lemma_render_hyps(hs: Seq<SHyp>, n: int)
    requires
        0 <= n <= hs.len(),
    ensures
        render_hyps(hs, n) == unlines(hyp_lines(hs, n)),
    decreases n,
{
    if n > 0 {
        lemma_render_hyps(hs, n - 1);
        lemma_unlines_append(hyp_lines(hs, n - 1), seq![hyp_line(hs[n - 1])]);
        lemma_unlines_one(hyp_line(hs[n - 1]));
        assert(hyp_lines(hs, n - 1).push(hyp_line(hs[n - 1])) == hyp_lines(hs, n - 1) + seq![hyp_line(hs[n - 1])]);
    }
}

proof fn lemma_render_goal(g: SGoal, i: int, multi: bool)
    requires
        i >= 0,
    ensures
        render_goal(g, i, multi) == unlines(goal_lines(g, i, multi)),
{
    let p1: Seq<Seq<char>> = if i > 0 { seq![Seq::<char>::empty()] } else { Seq::empty() };
    let p2: Seq<Seq<char>> = if multi { seq![case_line(i)] } else { Seq::empty() };
    let hl = hyp_lines(g.hyps, g.hyps.len() as int);
    lemma_unlines_append(p1 + p2, block_of(g));
    lemma_unlines_append(p1, p2);
    lemma_unlines_append(hl, seq![target_line(g.target)]);
    lemma_unlines_one(target_line(g.target));
    lemma_unlines_one(Seq::<char>::empty());
    lemma_unlines_one(case_line(i));
    lemma_render_hyps(g.hyps, g.hyps.len() as int);
    assert(block_of(g) == hl + seq![target_line(g.target)]);
    assert(unlines(Seq::<Seq<char>>::empty()) == Seq::<char>::empty());
    assert(render_goal(g, i, multi) =~= unlines(goal_lines(g, i, multi)));
}

proof fn lemma_render_upto(gs: Seq<SGoal>, n: int)
    requires
        0 <= n <= gs.len(),
    ensures
        render_upto(gs, n) == unlines(all_lines(gs, n)),
    decreases n,
{
    if n > 0 {
        lemma_render_upto(gs, n - 1);
        lemma_render_goal(gs[n - 1], n - 1, gs.len() > 1);
        lemma_unlines_append(all_lines(gs, n - 1), goal_lines(gs[n - 1], n - 1, gs.len() > 1));
    }
}

/// A line that `str::lines` gives back unchanged: no break inside and no
/// carriage return at its end.
pub open spec fn plain(l: Seq<char>) -> bool {
    one_line(l) && (l.len() == 0 || l.last() != '\r')
}

proof fn lemma_lines_unlines(ls: Seq<Seq<char>>)
    requires
        forall|i: int| 0 <= i < ls.len() ==> plain(#[trigger] ls[i]),
    ensures
        lines_spec(unlines(ls)) == ls,
    decreases ls.len(),
{
    if ls.len() == 0 {
        assert(first_where(Seq::<char>::empty(), is_char('\n')) is None);
    } else {
        let a = ls[0];
        let rest = unlines(ls.drop_first());
        let s = unlines(ls);
        assert(s == a + seq!['\n'] + rest);
        assert(plain(a));
        assert forall|j: int| 0 <= j < a.len() implies !is_char('\n')(#[trigger] s[j]) by {
            assert(s[j] == a[j]);
        }
        assert(s[a.len() as int] == '\n');
        lemma_first_where_at(s, is_char('\n'), a.len() as int);
        assert(s.take(a.len() as int) == a);
        assert(s.skip(a.len() as int + 1) == rest);
        assert(drop_cr(a) == a);
        assert forall|i: int| 0 <= i < ls.drop_first().len() implies plain(#[trigger] ls.drop_first()[i]) by {
            assert(ls.drop_first()[i] == ls[i + 1]);
        }
        lemma_lines_unlines(ls.drop_first());
        assert(lines_spec(s) == seq![a] + ls.drop_first());
        assert(seq![a] + ls.drop_first() =~= ls);
    }
}

// ===========================================================================
// Trimming
// ===========================================================================

proof fn lemma_tr_clean(s: Seq<char>)
    requires
        s.len() > 0,
        !is_white(s[0]),
        !is_white(s.last()),
    ensures
        tr(s) == s,
{
    assert(ltrim(s, white_pred()) == s);
    assert(rtrim(s, white_pred()) == s);
}

proof fn lemma_tr_space_clean(s: Seq<char>)
    requires
        clean_line(s),
    ensures
        tr(seq![' '] + s) == s,
{
    let t = seq![' '] + s;
    assert(t.drop_first() == s);
    assert(is_white(' '));
    assert(ltrim(t, white_pred()) == ltrim(s, white_pred()));
    lemma_tr_clean(s);
}

// ===========================================================================
// Joined words
// ===========================================================================

proof fn lemma_join_front(ws: Seq<Seq<char>>, sep: Seq<char>)
    requires
        ws.len() >= 2,
    ensures
        join(ws, sep) == ws[0] + sep + join(ws.drop_first(), sep),
    decreases ws.len(),
{
    if ws.len() == 2 {
        assert(ws.drop_last().len() == 1);
        assert(join(ws.drop_last(), sep) == ws[0]);
        assert(ws.drop_first().len() == 1);
        assert(join(ws.drop_first(), sep) == ws[1]);
        assert(join(ws, sep) == join(ws.drop_last(), sep) + sep + ws.last());
    } else {
        lemma_join_front(ws.drop_last(), sep);
        assert(ws.drop_last().drop_first() == ws.drop_first().drop_last());
        assert(ws.drop_last()[0] == ws[0]);
        assert(ws.drop_first().last() == ws.last());
        assert(join(ws.drop_first(), sep) == join(ws.drop_first().drop_last(), sep) + sep + ws.drop_first().last());
        assert(join(ws, sep) == join(ws.drop_last(), sep) + sep + ws.last());
        assert(join(ws, sep) =~= ws[0] + sep + join(ws.drop_first(), sep));
    }
}

/// Every character of a join satisfies `p` when those of the pieces and of
/// the separator do.
proof fn lemma_join_chars(ws: Seq<Seq<char>>, sep: Seq<char>, p: spec_fn(char) -> bool)
    requires
        forall|k: int, i: int| 0 <= k < ws.len() && 0 <= i < ws[k].len() ==> p(#[trigger] ws[k][i]),
        forall|i: int| 0 <= i < sep.len() ==> p(#[trigger] sep[i]),
    ensures
        forall|i: int| 0 <= i < join(ws, sep).len() ==> p(#[trigger] join(ws, sep)[i]),
    decreases ws.len(),
{
    if ws.len() >= 2 {
        lemma_join_chars(ws.drop_last(), sep, p);
        let a = join(ws.drop_last(), sep);
        let j = join(ws, sep);
        assert(j == a + sep + ws.last());
        assert forall|i: int| 0 <= i < j.len() implies p(#[trigger] j[i]) by {
            if i < a.len() {
                assert(j[i] == a[i]);
            } else if i < a.len() + sep.len() {
                assert(j[i] == sep[i - a.len()]);
            } else {
                assert(j[i] == ws[ws.len() - 1][i - a.len() - sep.len()]);
            }
        }
    } else if ws.len() == 1 {
        assert forall|i: int| 0 <= i < join(ws, sep).len() implies p(#[trigger] join(ws, sep)[i]) by {
            assert(join(ws, sep)[i] == ws[0][i]);
        }
    }
}

/// A word: non-empty, without whitespace.
pub open spec fn word(w: Seq<char>) -> bool {
    w.len() > 0 && forall|i: int| 0 <= i < w.len() ==> !is_white(#[trigger] w[i])
}

proof fn lemma_words_space(x: Seq<char>)
    ensures
        words(seq![' '] + x) == words(x),
{
    let t = seq![' '] + x;
    assert(t.drop_first() == x);
    assert(is_white(' '));
    assert(ltrim(t, white_pred()) == ltrim(x, white_pred()));
}

/// A word followed by a space and more text: its words are the word and
/// the words of the rest.
proof fn lemma_words_lead(w: Seq<char>, x: Seq<char>)
    requires
        word(w),
    ensures
        words(w + seq![' '] + x) == seq![w] + words(x),
{
    let s = w + seq![' '] + x;
    assert(!is_white(s[0])) by {
        assert(s[0] == w[0]);
    }
    assert(ltrim(s, white_pred()) == s);
    assert forall|j: int| 0 <= j < w.len() implies !white_pred()(#[trigger] s[j]) by {
        assert(s[j] == w[j]);
    }
    assert(s[w.len() as int] == ' ');
    assert(is_white(' '));
    lemma_first_where_at(s, white_pred(), w.len() as int);
    assert(s.take(w.len() as int) == w);
    assert(s.skip(w.len() as int) == seq![' '] + x);
    lemma_words_space(x);
}

proof fn lemma_words_join(ws: Seq<Seq<char>>)
    requires
        ws.len() > 0,
        forall|k: int| 0 <= k < ws.len() ==> word(#[trigger] ws[k]),
    ensures
        words(join(ws, seq![' ']) + seq![' ']) == ws,
    decreases ws.len(),
{
    assert(word(ws[0]));
    if ws.len() == 1 {
        assert(join(ws, seq![' ']) == ws[0]);
        lemma_words_lead(ws[0], Seq::empty());
        assert(ws[0] + seq![' '] + Seq::<char>::empty() == ws[0] + seq![' ']);
        assert(ltrim(Seq::<char>::empty(), white_pred()).len() == 0);
        assert(words(Seq::<char>::empty()) == Seq::<Seq<char>>::empty());
        assert(seq![ws[0]] + Seq::<Seq<char>>::empty() =~= ws);
    } else {
        lemma_join_front(ws, seq![' ']);
        let rest = join(ws.drop_first(), seq![' ']) + seq![' '];
        assert(join(ws, seq![' ']) + seq![' '] =~= ws[0] + seq![' '] + rest);
        lemma_words_lead(ws[0], rest);
        assert forall|k: int| 0 <= k < ws.drop_first().len() implies word(#[trigger] ws.drop_first()[k]) by {
            assert(ws.drop_first()[k] == ws[k + 1]);
        }
        lemma_words_join(ws.drop_first());
        assert(seq![ws[0]] + ws.drop_first() =~= ws);
    }
}

// ===========================================================================
// The three kinds of rendered line
// ===========================================================================

/// Whether no character of `s` is `c`.
pub open spec fn lacks(s: Seq<char>, c: char) -> bool {
    forall|i: int| 0 <= i < s.len() ==> s[i] != c
}

proof fn lemma_no_turnstile_chars(ty: Seq<char>)
    requires
        !has_turnstile(ty),
    ensures
        lacks(ty, '⊢'),
        forall|i: int| 0 <= i < ty.len() - 1 && #[trigger] ty[i] == '|' ==> ty[i + 1] != '-',
{
    reveal_strlit("⊢");
    reveal_strlit("|-");
    assert forall|i: int| 0 <= i < ty.len() implies ty[i] != '⊢' by {
        if ty[i] == '⊢' {
            assert(ty.subrange(i, i + 1) =~= "⊢"@);
        }
    }
    assert forall|i: int| 0 <= i < ty.len() - 1 && #[trigger] ty[i] == '|' implies ty[i + 1] != '-' by {
        if ty[i + 1] == '-' {
            assert(ty.subrange(i, i + 2) =~= "|-"@);
        }
    }
}

proof fn lemma_decimal_digits(n: nat)
    ensures
        decimal(n).len() > 0,
        forall|i: int| 0 <= i < decimal(n).len() ==> '0' <= #[trigger] decimal(n)[i] <= '9',
    decreases n,
{
    if n >= 10 {
        lemma_decimal_digits(n / 10);
        assert forall|i: int| 0 <= i < decimal(n).len() implies '0' <= #[trigger] decimal(n)[i] <= '9' by {
            if i < decimal(n / 10).len() {
                assert(decimal(n)[i] == decimal(n / 10)[i]);
            }
        }
    }
}

/// What the splitter and the parser see of a hypothesis line.
proof fn lemma_hyp_line(h: SHyp)
    requires
        hyp_ok(h),
    ensures
        plain(hyp_line(h)),
        hyp_line(h).len() > 0,
        tr(hyp_line(h)) == hyp_line(h),
        !is_case_marker(hyp_line(h)),
        !has_turnstile(hyp_line(h)),
        parse_hyp_spec(hyp_line(h)) == Some(h),
{
    let ns = h.names;
    let n0 = ns[0];
    let sep = seq![' '];
    let j = join(ns, sep);
    let hl = hyp_line(h);
    let ty = h.ty;
    assert(name_ok(n0));
    let p = |c: char| c != ':' && c != '⊢' && c != '|' && c != '\n';
    assert forall|k: int, i: int| 0 <= k < ns.len() && 0 <= i < ns[k].len() implies p(#[trigger] ns[k][i]) by {
        assert(name_ok(ns[k]));
        assert(is_white('\n'));
    }
    lemma_join_chars(ns, sep, p);
    // The join opens with the first name and then a space follows it.
    let l0 = n0.len() as int;
    if ns.len() == 1 {
        assert(j == n0);
    } else {
        lemma_join_front(ns, sep);
    }
    assert(j.len() >= l0);
    assert forall|i: int| 0 <= i < l0 implies #[trigger] hl[i] == n0[i] by {
        assert(hl[i] == j[i]);
    }
    assert(hl[l0] == ' ');
    assert(hl == j + seq![' ', ':', ' '] + ty);
    let jl = j.len() as int;
    assert(hl.len() == jl + 3 + ty.len());
    // Plain, trimmed, non-empty.
    lemma_no_turnstile_chars(ty);
    assert(is_white('\r'));
    assert forall|i: int| 0 <= i < hl.len() implies hl[i] != '\n' by {
        if i < jl {
            assert(hl[i] == j[i]);
            assert(p(j[i]));
        } else if i >= jl + 3 {
            assert(hl[i] == ty[i - jl - 3]);
        }
    }
    assert(hl.last() == ty.last());
    assert(hl[0] == n0[0]);
    lemma_tr_clean(hl);
    // Not a case marker.
    reveal_strlit("case");
    reveal_strlit("case ");
    reveal_strlit("case'");
    reveal_strlit("case' ");
    assert(hl != "case"@) by {
        if hl == "case"@ {
            assert(hl[l0] == ' ');
        }
    }
    assert(hl != "case'"@) by {
        if hl == "case'"@ {
            assert(hl[l0] == ' ');
        }
    }
    assert(!starts(hl, "case "@)) by {
        if starts(hl, "case "@) {
            assert(hl.take(5)[4] == ' ');
            if l0 < 4 {
                assert(hl.take(5)[l0] == hl[l0]);
            } else if l0 == 4 {
                assert(n0 =~= "case"@) by {
                    assert forall|i: int| 0 <= i < 4 implies n0[i] == "case"@[i] by {
                        assert(hl.take(5)[i] == hl[i]);
                    }
                }
            } else {
                assert(hl.take(5)[4] == hl[4]);
                assert(hl[4] == n0[4]);
            }
        }
    }
    assert(!starts(hl, "case' "@)) by {
        if starts(hl, "case' "@) {
            assert(hl.take(6)[5] == ' ');
            if l0 < 5 {
                assert(hl.take(6)[l0] == hl[l0]);
            } else if l0 == 5 {
                assert(n0 =~= "case'"@) by {
                    assert forall|i: int| 0 <= i < 5 implies n0[i] == "case'"@[i] by {
                        assert(hl.take(6)[i] == hl[i]);
                    }
                }
            } else {
                assert(hl.take(6)[5] == hl[5]);
                assert(hl[5] == n0[5]);
            }
        }
    }
    // No turnstile.
    reveal_strlit("⊢");
    reveal_strlit("|-");
    assert(!contains_spec(hl, "⊢"@)) by {
        if contains_spec(hl, "⊢"@) {
            let i = choose|i: int| 0 <= i && i + "⊢"@.len() <= hl.len() && #[trigger] hl.subrange(i, i + "⊢"@.len()) == "⊢"@;
            assert(hl.subrange(i, i + 1)[0] == hl[i]);
            if i < jl {
                assert(hl[i] == j[i]);
                assert(p(j[i]));
            } else if i >= jl + 3 {
                assert(hl[i] == ty[i - jl - 3]);
            }
        }
    }
    assert(!contains_spec(hl, "|-"@)) by {
        if contains_spec(hl, "|-"@) {
            let i = choose|i: int| 0 <= i && i + "|-"@.len() <= hl.len() && #[trigger] hl.subrange(i, i + "|-"@.len()) == "|-"@;
            assert(hl.subrange(i, i + 2)[0] == hl[i]);
            assert(hl.subrange(i, i + 2)[1] == hl[i + 1]);
            if i < jl {
                assert(hl[i] == j[i]);
                assert(p(j[i]));
            } else if i >= jl + 3 {
                assert(hl[i] == ty[i - jl - 3]);
                assert(hl[i + 1] == ty[i + 1 - jl - 3]);
            }
        }
    }
    // Parsed back.
    assert forall|i: int| 0 <= i < jl + 1 implies !class_pred(CharClass::Only(':'))(#[trigger] hl[i]) by {
        if i < jl {
            assert(hl[i] == j[i]);
            assert(p(j[i]));
        }
    }
    assert(hl[jl + 1] == ':');
    lemma_first_where_at(hl, class_pred(CharClass::Only(':')), jl + 1);
    assert(hl.take(jl + 1) == j + seq![' ']);
    assert forall|k: int| 0 <= k < ns.len() implies word(#[trigger] ns[k]) by {
        assert(name_ok(ns[k]));
    }
    lemma_words_join(ns);
    assert(hl.skip(jl + 2) == seq![' '] + ty);
    lemma_tr_space_clean(ty);
}

/// What the splitter and the parser see of a target line.
proof fn lemma_target_line(t: Seq<char>)
    requires
        clean_line(t),
    ensures
        plain(target_line(t)),
        tr(target_line(t)) == target_line(t),
        !is_case_marker(target_line(t)),
        has_turnstile(target_line(t)),
        turnstile_end(target_line(t)) == Some(1int),
        tr(target_line(t).skip(1)) == t,
{
    let tl = target_line(t);
    assert(is_white('\r'));
    assert forall|i: int| 0 <= i < tl.len() implies tl[i] != '\n' by {
        if i >= 2 {
            assert(tl[i] == t[i - 2]);
        }
    }
    assert(tl.last() == t.last());
    lemma_tr_clean(tl);
    reveal_strlit("case");
    reveal_strlit("case ");
    reveal_strlit("case'");
    reveal_strlit("case' ");
    assert(tl != "case"@ && tl != "case'"@ && !starts(tl, "case "@) && !starts(tl, "case' "@)) by {
        if starts(tl, "case "@) {
            assert(tl.take(5)[0] == tl[0]);
        }
        if starts(tl, "case' "@) {
            assert(tl.take(6)[0] == tl[0]);
        }
        if tl == "case"@ || tl == "case'"@ {
            assert(tl[0] == '⊢');
        }
    }
    reveal_strlit("⊢");
    reveal_strlit("|-");
    assert(tl.subrange(0, 1) =~= "⊢"@);
    assert(tl.take(1) =~= "⊢"@);
    assert(find_sub(tl, "⊢"@) == Some(0int));
    lemma_find_sub_nonneg(tl, "|-"@);
    assert(tl.skip(1) =~= seq![' '] + t);
    lemma_tr_space_clean(t);
}

proof fn lemma_find_sub_nonneg(s: Seq<char>, needle: Seq<char>)
    ensures
        match find_sub(s, needle) {
            Some(k) => k >= 0,
            None => true,
        },
    decreases s.len(),
{
    if s.len() >= needle.len() && s.take(needle.len() as int) != needle && s.len() > 0 {
        lemma_find_sub_nonneg(s.drop_first(), needle);
    }
}

/// What the splitter sees of a `case` line.
proof fn lemma_case_line(i: int)
    requires
        i >= 0,
    ensures
        plain(case_line(i)),
        tr(case_line(i)) == case_line(i),
        is_case_marker(case_line(i)),
{
    let cl = case_line(i);
    let d = decimal((i + 1) as nat);
    lemma_decimal_digits((i + 1) as nat);
    assert(is_white('\r'));
    assert forall|k: int| 0 <= k < cl.len() implies cl[k] != '\n' by {
        if k >= 5 {
            assert(cl[k] == d[k - 5]);
        }
    }
    assert(cl.last() == d.last());
    assert(d[d.len() - 1] == d.last());
    lemma_tr_clean(cl);
    reveal_strlit("case ");
    assert(cl.take(5) =~= "case "@);
}

// ===========================================================================
// Splitting the rendered lines into blocks
// ===========================================================================

/// The splitter's starting state.
pub open spec fn start() -> BState {
    BState { blocks: Seq::empty(), cur: Seq::empty(), has: false }
}

/// The splitter run from `st` over the lines `ls`.
pub open spec fn bfrom(st: BState, ls: Seq<Seq<char>>) -> BState
    decreases ls.len(),
{
    if ls.len() == 0 { st } else { bstep(bfrom(st, ls.drop_last()), ls.last()) }
}

proof fn lemma_bupto_bfrom(ls: Seq<Seq<char>>, n: int)
    requires
        0 <= n <= ls.len(),
    ensures
        bupto(ls, n) == bfrom(start(), ls.take(n)),
    decreases n,
{
    if n > 0 {
        lemma_bupto_bfrom(ls, n - 1);
        assert(ls.take(n).drop_last() == ls.take(n - 1));
        assert(ls.take(n).last() == ls[n - 1]);
    }
}

proof fn lemma_bfrom_append(st: BState, a: Seq<Seq<char>>, b: Seq<Seq<char>>)
    ensures
        bfrom(st, a + b) == bfrom(bfrom(st, a), b),
    decreases b.len(),
{
    if b.len() == 0 {
        assert(a + b == a);
    } else {
        assert((a + b).drop_last() == a + b.drop_last());
        assert((a + b).last() == b.last());
        lemma_bfrom_append(st, a, b.drop_last());
    }
}

proof fn lemma_bfrom_one(st: BState, x: Seq<char>)
    ensures
        bfrom(st, seq![x]) == bstep(st, x),
{
    assert(seq![x].drop_last() == Seq::<Seq<char>>::empty());
    assert(bfrom(st, Seq::<Seq<char>>::empty()) == st);
    assert(seq![x].last() == x);
}

proof fn lemma_hyp_lines_index(hs: Seq<SHyp>, n: int, k: int)
    requires
        0 <= k < n <= hs.len(),
    ensures
        hyp_lines(hs, n).len() == n,
        hyp_lines(hs, n)[k] == hyp_line(hs[k]),
    decreases n,
{
    lemma_hyp_lines_len(hs, n);
    if k < n - 1 {
        lemma_hyp_lines_index(hs, n - 1, k);
    }
}

proof fn lemma_hyp_lines_len(hs: Seq<SHyp>, n: int)
    requires
        0 <= n,
    ensures
        hyp_lines(hs, n).len() == n,
    decreases n,
{
    if n > 0 {
        lemma_hyp_lines_len(hs, n - 1);
    }
}

proof fn lemma_fold_hyps(st: BState, hs: Seq<SHyp>, n: int)
    requires
        0 <= n <= hs.len(),
        forall|k: int| 0 <= k < hs.len() ==> hyp_ok(#[trigger] hs[k]),
        st.cur.len() == 0,
        !st.has,
    ensures
        bfrom(st, hyp_lines(hs, n)) == (BState { blocks: st.blocks, cur: hyp_lines(hs, n), has: false }),
    decreases n,
{
    if n > 0 {
        lemma_fold_hyps(st, hs, n - 1);
        assert(hyp_lines(hs, n).drop_last() == hyp_lines(hs, n - 1));
        assert(hyp_ok(hs[n - 1]));
        lemma_hyp_line(hs[n - 1]);
    } else {
        assert(st.cur == Seq::<Seq<char>>::empty());
    }
}

proof fn lemma_tr_empty()
    ensures
        tr(Seq::<char>::empty()) == Seq::<char>::empty(),
{
    assert(ltrim(Seq::<char>::empty(), white_pred()) == Seq::<char>::empty());
    assert(rtrim(Seq::<char>::empty(), white_pred()) == Seq::<char>::empty());
}

/// The splitter over one goal's lines: it closes the previous block (if
/// any) and leaves the goal's block in progress, with its target.
proof fn lemma_fold_goal(st: BState, g: SGoal, i: int, multi: bool)
    requires
        goal_ok(g),
        i >= 0,
        i == 0 ==> st == start(),
        i > 0 ==> st.has && st.cur.len() > 0,
    ensures
        bfrom(st, goal_lines(g, i, multi)) == (BState {
            blocks: if i > 0 { st.blocks.push(st.cur) } else { st.blocks },
            cur: block_of(g),
            has: true,
        }),
{
    let p1: Seq<Seq<char>> = if i > 0 { seq![Seq::<char>::empty()] } else { Seq::empty() };
    let p2: Seq<Seq<char>> = if multi { seq![case_line(i)] } else { Seq::empty() };
    let hl = hyp_lines(g.hyps, g.hyps.len() as int);
    let tl = target_line(g.target);
    lemma_bfrom_append(st, p1 + p2, block_of(g));
    lemma_bfrom_append(st, p1, p2);
    let s1 = bfrom(st, p1);
    let b = if i > 0 { st.blocks.push(st.cur) } else { st.blocks };
    let open = BState { blocks: b, cur: Seq::empty(), has: false };
    if i > 0 {
        lemma_bfrom_one(st, Seq::<char>::empty());
        lemma_tr_empty();
        assert(s1 == open);
    } else {
        assert(s1 == st);
        assert(st == open);
    }
    let s2 = bfrom(s1, p2);
    if multi {
        lemma_bfrom_one(s1, case_line(i));
        lemma_case_line(i);
        assert(s2 == finish(s1));
    }
    assert(s2 == open);
    assert(block_of(g) == hl.push(tl));
    assert(hl.push(tl).drop_last() == hl);
    lemma_fold_hyps(open, g.hyps, g.hyps.len() as int);
    lemma_target_line(g.target);
}

/// The blocks of the first `n` goals.
pub open spec fn blocks_of(gs: Seq<SGoal>, n: int) -> Seq<Seq<Seq<char>>>
    decreases n,
{
    if n <= 0 { Seq::empty() } else { blocks_of(gs, n - 1).push(block_of(gs[n - 1])) }
}

proof fn lemma_fold_all(gs: Seq<SGoal>, n: int)
    requires
        1 <= n <= gs.len(),
        state_ok(gs),
    ensures
        bfrom(start(), all_lines(gs, n)) == (BState { blocks: blocks_of(gs, n - 1), cur: block_of(gs[n - 1]), has: true }),
    decreases n,
{
    assert(goal_ok(gs[n - 1]));
    lemma_bfrom_append(start(), all_lines(gs, n - 1), goal_lines(gs[n - 1], n - 1, gs.len() > 1));
    if n == 1 {
        assert(all_lines(gs, 0) == Seq::<Seq<char>>::empty());
        assert(bfrom(start(), Seq::<Seq<char>>::empty()) == start());
        lemma_fold_goal(start(), gs[0], 0, gs.len() > 1);
    } else {
        lemma_fold_all(gs, n - 1);
        let st = bfrom(start(), all_lines(gs, n - 1));
        assert(block_of(gs[n - 2]).len() > 0);
        lemma_fold_goal(st, gs[n - 1], n - 1, gs.len() > 1);
    }
}

// ===========================================================================
// Parsing the blocks back
// ===========================================================================

proof fn lemma_plain_concat(a: Seq<Seq<char>>, b: Seq<Seq<char>>)
    requires
        forall|i: int| 0 <= i < a.len() ==> plain(#[trigger] a[i]),
        forall|i: int| 0 <= i < b.len() ==> plain(#[trigger] b[i]),
    ensures
        forall|i: int| 0 <= i < (a + b).len() ==> plain(#[trigger] (a + b)[i]),
{
    assert forall|i: int| 0 <= i < (a + b).len() implies plain(#[trigger] (a + b)[i]) by {
        if i < a.len() {
            assert((a + b)[i] == a[i]);
        } else {
            assert((a + b)[i] == b[i - a.len()]);
        }
    }
}

proof fn lemma_goal_lines_plain(g: SGoal, i: int, multi: bool)
    requires
        goal_ok(g),
        i >= 0,
    ensures
        forall|k: int| 0 <= k < goal_lines(g, i, multi).len() ==> plain(#[trigger] goal_lines(g, i, multi)[k]),
{
    let p1: Seq<Seq<char>> = if i > 0 { seq![Seq::<char>::empty()] } else { Seq::empty() };
    let p2: Seq<Seq<char>> = if multi { seq![case_line(i)] } else { Seq::empty() };
    let m = g.hyps.len() as int;
    let hl = hyp_lines(g.hyps, m);
    lemma_case_line(i);
    lemma_target_line(g.target);
    lemma_hyp_lines_len(g.hyps, m);
    assert forall|k: int| 0 <= k < p1.len() implies plain(#[trigger] p1[k]) by {}
    assert forall|k: int| 0 <= k < p2.len() implies plain(#[trigger] p2[k]) by {}
    assert forall|k: int| 0 <= k < block_of(g).len() implies plain(#[trigger] block_of(g)[k]) by {
        if k < m {
            lemma_hyp_lines_index(g.hyps, m, k);
            assert(block_of(g)[k] == hl[k]);
            assert(hyp_ok(g.hyps[k]));
            lemma_hyp_line(g.hyps[k]);
        }
    }
    lemma_plain_concat(p1, p2);
    lemma_plain_concat(p1 + p2, block_of(g));
}

proof fn lemma_all_lines_plain(gs: Seq<SGoal>, n: int)
    requires
        0 <= n <= gs.len(),
        state_ok(gs),
    ensures
        forall|k: int| 0 <= k < all_lines(gs, n).len() ==> plain(#[trigger] all_lines(gs, n)[k]),
    decreases n,
{
    if n > 0 {
        lemma_all_lines_plain(gs, n - 1);
        assert(goal_ok(gs[n - 1]));
        lemma_goal_lines_plain(gs[n - 1], n - 1, gs.len() > 1);
        lemma_plain_concat(all_lines(gs, n - 1), goal_lines(gs[n - 1], n - 1, gs.len() > 1));
    }
}

proof fn lemma_first_turnstile(g: SGoal, j: int)
    requires
        goal_ok(g),
        0 <= j <= g.hyps.len(),
    ensures
        first_turnstile(block_of(g), j) == Some(g.hyps.len() as int),
    decreases g.hyps.len() - j,
{
    let m = g.hyps.len() as int;
    lemma_hyp_lines_len(g.hyps, m);
    if j == m {
        lemma_target_line(g.target);
        assert(block_of(g)[m] == target_line(g.target));
    } else {
        lemma_hyp_lines_index(g.hyps, m, j);
        assert(block_of(g)[j] == hyp_line(g.hyps[j]));
        assert(hyp_ok(g.hyps[j]));
        lemma_hyp_line(g.hyps[j]);
        lemma_first_turnstile(g, j + 1);
    }
}

proof fn lemma_hyps_upto(g: SGoal, n: int)
    requires
        goal_ok(g),
        0 <= n <= g.hyps.len(),
    ensures
        hyps_upto(block_of(g), n) == g.hyps.take(n),
    decreases n,
{
    let m = g.hyps.len() as int;
    if n > 0 {
        lemma_hyps_upto(g, n - 1);
        lemma_hyp_lines_index(g.hyps, m, n - 1);
        assert(block_of(g)[n - 1] == hyp_line(g.hyps[n - 1]));
        assert(hyp_ok(g.hyps[n - 1]));
        lemma_hyp_line(g.hyps[n - 1]);
        assert(g.hyps.take(n) == g.hyps.take(n - 1).push(g.hyps[n - 1]));
    } else {
        assert(g.hyps.take(0) == Seq::<SHyp>::empty());
    }
}

proof fn lemma_parse_block(g: SGoal)
    requires
        goal_ok(g),
    ensures
        parse_block_spec(block_of(g)) == Some(g),
{
    let m = g.hyps.len() as int;
    let b = block_of(g);
    lemma_hyp_lines_len(g.hyps, m);
    lemma_first_turnstile(g, 0);
    assert(b[m] == target_line(g.target));
    lemma_target_line(g.target);
    assert(rest_parts(b, m + 1) == Seq::<Seq<char>>::empty());
    assert(seq![g.target] + Seq::<Seq<char>>::empty() == seq![g.target]);
    assert(join(seq![g.target], seq![' ']) == g.target);
    lemma_hyps_upto(g, m);
    assert(g.hyps.take(m) == g.hyps);
}

proof fn lemma_blocks_of(gs: Seq<SGoal>, n: int, k: int)
    requires
        0 <= k < n,
    ensures
        blocks_of(gs, n).len() == n,
        blocks_of(gs, n)[k] == block_of(gs[k]),
    decreases n,
{
    lemma_blocks_len(gs, n);
    if k < n - 1 {
        lemma_blocks_of(gs, n - 1, k);
    }
}

proof fn lemma_blocks_len(gs: Seq<SGoal>, n: int)
    requires
        0 <= n,
    ensures
        blocks_of(gs, n).len() == n,
    decreases n,
{
    if n > 0 {
        lemma_blocks_len(gs, n - 1);
    }
}

proof fn lemma_goals_upto(gs: Seq<SGoal>, n: int)
    requires
        state_ok(gs),
        0 <= n <= gs.len(),
    ensures
        goals_upto(blocks_of(gs, gs.len() as int), n) == gs.take(n),
    decreases n,
{
    if n > 0 {
        lemma_goals_upto(gs, n - 1);
        lemma_blocks_of(gs, gs.len() as int, n - 1);
        assert(goal_ok(gs[n - 1]));
        lemma_parse_block(gs[n - 1]);
        assert(gs.take(n) == gs.take(n - 1).push(gs[n - 1]));
    } else {
        assert(gs.take(0) == Seq::<SGoal>::empty());
    }
}

// ===========================================================================
// The law
// ===========================================================================

proof fn lemma_ltrim_keeps(s: Seq<char>, i: int)
    requires
        0 <= i < s.len(),
        !is_white(s[i]),
    ensures
        ltrim(s, white_pred()).len() >= s.len() - i,
    decreases s.len(),
{
    if is_white(s[0]) {
        assert(s.drop_first()[i - 1] == s[i]);
        lemma_ltrim_keeps(s.drop_first(), i - 1);
    }
}

proof fn lemma_rtrim_keeps(t: Seq<char>)
    requires
        t.len() > 0,
        !is_white(t[0]),
    ensures
        rtrim(t, white_pred()).len() > 0,
    decreases t.len(),
{
    if is_white(t.last()) {
        assert(t.len() >= 2);
        assert(t.drop_last()[0] == t[0]);
        lemma_rtrim_keeps(t.drop_last());
    }
}

proof fn lemma_tr_nonempty(s: Seq<char>, i: int)
    requires
        0 <= i < s.len(),
        !is_white(s[i]),
    ensures
        tr(s).len() > 0,
{
    lemma_ltrim_keeps(s, i);
    crate::text::lemma_ltrim_suffix(s, white_pred());
    lemma_rtrim_keeps(ltrim(s, white_pred()));
}

/// Rendering a goal state and parsing the rendering gives back the same
/// goals, for every state whose names are plain words (not `case`
/// markers), whose types and targets are plain lines (types without a
/// turnstile), and whose rendering does not announce "no goals".
pub proof fn lemma_render_parse_round_trip(gs: Seq<SGoal>)
    requires
        state_ok(gs),
        !crate::goal_state::no_goals_text(lowercase(render_spec(gs))),
    ensures
        parse_spec(render_spec(gs), lowercase(render_spec(gs))) == gs,
{
    let n = gs.len() as int;
    let r = render_spec(gs);
    if n == 0 {
        assert(r == Seq::<char>::empty());
        lemma_tr_empty();
    } else {
        let l = all_lines(gs, n);
        lemma_render_upto(gs, n);
        lemma_all_lines_plain(gs, n);
        lemma_lines_unlines(l);
        // A turnstile that trimming keeps.
        let g = gs[n - 1];
        let multi = n > 1;
        let i = n - 1;
        let pre = render_upto(gs, n - 1) + (if i > 0 { seq!['\n'] } else { Seq::<char>::empty() })
            + (if multi { seq!['c', 'a', 's', 'e', ' '] + decimal((i + 1) as nat) + seq!['\n'] } else { Seq::<char>::empty() })
            + render_hyps(g.hyps, g.hyps.len() as int);
        assert(r =~= pre + seq!['⊢', ' '] + g.target + seq!['\n']);
        assert(r[pre.len() as int] == '⊢');
        lemma_tr_nonempty(r, pre.len() as int);
        // Blocks.
        lemma_bupto_bfrom(l, l.len() as int);
        assert(l.take(l.len() as int) == l);
        lemma_fold_all(gs, n);
        assert(block_of(gs[n - 1]).len() > 0);
        assert(goal_blocks(r) == blocks_of(gs, n));
        lemma_blocks_len(gs, n);
        lemma_goals_upto(gs, n);
        assert(gs.take(n) == gs);
    }
}

} // verus!
