//! Whole-submission context integrity: did a submission leave alone the
//! material it was given?
//!
//! The non-target declaration blocks of the supplied context and of the
//! submission are paired by name and compared as whitespace-normalized raw
//! text (comments included: stripping a docstring is a change), and the
//! preamble before the first declaration is compared too.
use vstd::prelude::*;
use crate::formal::ScanReport;
use crate::statement_preservation::{
    blocks_view, decl_blocks, decl_blocks_spec, ContextChange, ContextChangeKind, DeclBlock,
};
use crate::statement_signature::{all_sigs_spec, parse_all_decls};
use crate::text::{chars_of, normalize_ws, normalize_ws_spec, owned, str_eq, trim, white_pred};

verus! {

/// The model of a [`ContextChange`].
pub ghost struct SChange {
    pub kind: ContextChangeKind,
    pub name: Seq<char>,
    pub context_text: Option<Seq<char>>,
    pub submitted_text: Option<Seq<char>>,
}

/// The model of an optional string.
pub open spec fn opt_text(o: Option<String>) -> Option<Seq<char>> {
    match o {
        Some(s) => Some(s@),
        None => None,
    }
}

/// The model of a change.
pub open spec fn change_view(c: ContextChange) -> SChange {
    SChange { kind: c.kind, name: c.name@, context_text: opt_text(c.context_text), submitted_text: opt_text(c.submitted_text) }
}

/// The models of a sequence of changes.
pub open spec fn changes_view(cs: Seq<ContextChange>) -> Seq<SChange> {
    cs.map_values(|c: ContextChange| change_view(c))
}

/// `bs[..n]` without the blocks named `t`.
pub open spec fn without_target(bs: Seq<(Seq<char>, Seq<char>)>, t: Seq<char>, n: int) -> Seq<(Seq<char>, Seq<char>)>
    decreases n,
{
    if n <= 0 {
        Seq::empty()
    } else {
        let prev = without_target(bs, t, n - 1);
        if bs[n - 1].0 == t { prev } else { prev.push(bs[n - 1]) }
    }
}

/// The first unused block of `sub` from `j` on named `name`.
pub open spec fn first_unused(sub: Seq<(Seq<char>, Seq<char>)>, used: Seq<bool>, name: Seq<char>, j: int) -> Option<int>
    decreases sub.len() - j,
{
    if j < 0 || j >= sub.len() {
        None
    } else if !used[j] && sub[j].0 == name {
        Some(j)
    } else {
        first_unused(sub, used, name, j + 1)
    }
}

/// Pairing the first `n` context blocks with submission blocks by name, in
/// context order (duplicates pair positionally): which submission blocks are
/// used, and the modified or removed changes found.
pub open spec fn pair_upto(
    ctx: Seq<(Seq<char>, Seq<char>)>,
    sub: Seq<(Seq<char>, Seq<char>)>,
    n: int,
) -> (Seq<bool>, Seq<SChange>)
    decreases n,
{
    if n <= 0 {
        (Seq::new(sub.len(), |i: int| false), Seq::empty())
    } else {
        let (used, cs) = pair_upto(ctx, sub, n - 1);
        let cb = ctx[n - 1];
        match first_unused(sub, used, cb.0, 0) {
            Some(j) => {
                let u2 = used.update(j, true);
                if normalize_ws_spec(cb.1) != normalize_ws_spec(sub[j].1) {
                    (u2, cs.push(SChange {
                        kind: ContextChangeKind::Modified,
                        name: cb.0,
                        context_text: Some(cb.1),
                        submitted_text: Some(sub[j].1),
                    }))
                } else {
                    (u2, cs)
                }
            },
            None => (used, cs.push(SChange {
                kind: ContextChangeKind::Removed,
                name: cb.0,
                context_text: Some(cb.1),
                submitted_text: None,
            })),
        }
    }
}

/// The submission blocks among the first `n` left unused: additions.
pub open spec fn added_upto(sub: Seq<(Seq<char>, Seq<char>)>, used: Seq<bool>, n: int) -> Seq<SChange>
    decreases n,
{
    if n <= 0 {
        Seq::empty()
    } else {
        let prev = added_upto(sub, used, n - 1);
        if used[n - 1] {
            prev
        } else {
            prev.push(SChange {
                kind: ContextChangeKind::Added,
                name: sub[n - 1].0,
                context_text: None,
                submitted_text: Some(sub[n - 1].1),
            })
        }
    }
}

/// The preamble change, if the two preambles differ.
pub open spec fn preamble_change(cp: Seq<char>, sp: Seq<char>) -> Seq<SChange> {
    if normalize_ws_spec(cp) != normalize_ws_spec(sp) && !(cp.len() == 0 && sp.len() == 0) {
        let kind = if trim(cp, white_pred()).len() == 0 {
            ContextChangeKind::Added
        } else if trim(sp, white_pred()).len() == 0 {
            ContextChangeKind::Removed
        } else {
            ContextChangeKind::Modified
        };
        seq![SChange {
            kind,
            name: "<preamble>"@,
            context_text: if cp.len() > 0 { Some(cp) } else { None },
            submitted_text: if sp.len() > 0 { Some(sp) } else { None },
        }]
    } else {
        Seq::empty()
    }
}

/// Every difference between the given context and the submission outside
/// the target: the preamble, then context order, then the additions.
pub open spec fn context_changes(ctx_src: Seq<char>, sub_src: Seq<char>, target: Seq<char>) -> Seq<SChange> {
    let (cp, cbs) = decl_blocks_spec(ctx_src);
    let (sp, sbs) = decl_blocks_spec(sub_src);
    let ctx = without_target(cbs, target, cbs.len() as int);
    let sub = without_target(sbs, target, sbs.len() as int);
    let (used, cs) = pair_upto(ctx, sub, ctx.len() as int);
    preamble_change(cp, sp) + cs + added_upto(sub, used, sub.len() as int)
}

/// The finding line of one change.
pub open spec fn change_msg(c: SChange, target: Seq<char>) -> Seq<char> {
    match c.kind {
        ContextChangeKind::Modified => "CONTEXT_ALTERED: given material `"@ + c.name
            + "` was MODIFIED — the submission was asked only to prove `"@ + target
            + "`, not to rewrite its context (a stripped docstring or a restated lemma both land here)"@,
        ContextChangeKind::Removed => "CONTEXT_ALTERED: given material `"@ + c.name
            + "` was REMOVED from the submission — a prerequisite the caller supplied is gone"@,
        ContextChangeKind::Added => "CONTEXT_ALTERED: the submission ADDED top-level declaration `"@ + c.name
            + "`, which was not part of the supplied context (unaudited new material)"@,
    }
}

/// Whether a submission left the given material alone.
#[derive(Debug, Clone, PartialEq, Eq)]
pub struct ContextIntegrityReport {
    /// `true` iff no non-target declaration was modified, removed or added.
    pub intact: bool,
    /// The target excluded from the comparison.
    pub target: String,
    /// Every difference, preamble first, then context order, then additions.
    pub changes: Vec<ContextChange>,
    /// One `CONTEXT_ALTERED:` line per change.
    pub findings: Vec<String>,
}

impl ContextIntegrityReport {
    /// The report as a scan result: clean iff intact.
    pub fn into_scan_report(self) -> (r: ScanReport)
        ensures
            r.clean == self.intact,
            r.findings@ == self.findings@,
    {
        ScanReport { clean: self.intact, findings: self.findings }
    }
}

/// A copy of a block.
fn clone_block(b: &DeclBlock) -> (r: DeclBlock)
    ensures
        r.name@ == b.name@,
        r.text@ == b.text@,
{
    DeclBlock { name: b.name.clone(), text: b.text.clone() }
}

/// The blocks not named `t`.
fn drop_target(bs: &Vec<DeclBlock>, t: &str) -> (r: Vec<DeclBlock>)
    ensures
        blocks_view(r@) == without_target(blocks_view(bs@), t@, bs@.len() as int),
{
    let ghost bv = blocks_view(bs@);
    let mut out: Vec<DeclBlock> = Vec::new();
    let mut i: usize = 0;
    while i < bs.len()
        invariant
            i <= bs@.len(),
            bv == blocks_view(bs@),
            blocks_view(out@) == without_target(bv, t@, i as int),
        decreases bs@.len() - i,
    {
        assert(bv[i as int] == (bs@[i as int].name@, bs@[i as int].text@));
        if !str_eq(bs[i].name.as_str(), t) {
            let ghost o0 = blocks_view(out@);
            out.push(clone_block(&bs[i]));
            assert(blocks_view(out@) =~= o0.push(bv[i as int]));
        }
        i = i + 1;
    }
    out
}

/// Whether two strings agree up to whitespace.
fn same_ws(a: &str, b: &str) -> (r: bool)
    ensures
        r == (normalize_ws_spec(a@) == normalize_ws_spec(b@)),
{
    let va = chars_of(a);
    let vb = chars_of(b);
    assert(va@.subrange(0, va@.len() as int) == va@);
    assert(vb@.subrange(0, vb@.len() as int) == vb@);
    let na = normalize_ws(&va, 0, va.len());
    let nb = normalize_ws(&vb, 0, vb.len());
    crate::text::chars_eq(&na, &nb)
}

/// Whether a string is empty after trimming whitespace.
fn blank(s: &str) -> (r: bool)
    ensures
        r == (trim(s@, white_pred()).len() == 0),
{
    let v = chars_of(s);
    let (a, b) = crate::text::trim_class(&v, 0, v.len(), crate::text::CharClass::White);
    assert(v@.subrange(0, v@.len() as int) == v@);
    assert(crate::text::class_pred(crate::text::CharClass::White) == white_pred());
    a == b
}

/// An optional copy of a string, `None` when empty.
fn nonempty(s: &String) -> (r: Option<String>)
    ensures
        opt_text(r) == if s@.len() > 0 { Some(s@) } else { None::<Seq<char>> },
{
    if !s.as_str().is_empty() { Some(s.clone()) } else { None }
}

/// The finding line of one change.
fn change_line(c: &ContextChange, target: &str) -> (r: String)
    ensures
        r@ == change_msg(change_view(*c), target@),
{
    match c.kind {
        ContextChangeKind::Modified => {
            let mut m = owned("CONTEXT_ALTERED: given material `");
            m.append(c.name.as_str());
            m.append("` was MODIFIED — the submission was asked only to prove `");
            m.append(target);
            m.append("`, not to rewrite its context (a stripped docstring or a restated lemma both land here)");
            m
        },
        ContextChangeKind::Removed => {
            let mut m = owned("CONTEXT_ALTERED: given material `");
            m.append(c.name.as_str());
            m.append("` was REMOVED from the submission — a prerequisite the caller supplied is gone");
            m
        },
        ContextChangeKind::Added => {
            let mut m = owned("CONTEXT_ALTERED: the submission ADDED top-level declaration `");
            m.append(c.name.as_str());
            m.append("`, which was not part of the supplied context (unaudited new material)");
            m
        },
    }
}

/// Confirm the submission did not alter the material it was given: every
/// declaration named `target_name` is left out, the rest are paired by name
/// and compared up to whitespace (comments and docstrings included), and the
/// preambles are compared.
pub fn check_context_preserved(supplied_context: &str, submitted_code: &str, target_name: &str) -> (r: ContextIntegrityReport)
    ensures
        changes_view(r.changes@) == context_changes(supplied_context@, submitted_code@, target_name@),
        r.findings@.map_values(|f: String| f@) == changes_view(r.changes@).map_values(|c: SChange| change_msg(c, target_name@)),
        r.intact == (r.changes@.len() == 0),
        r.target@ == target_name@,
{
    let (cp, cbs) = decl_blocks(supplied_context);
    let (sp, sbs) = decl_blocks(submitted_code);
    let ctx = drop_target(&cbs, target_name);
    let sub = drop_target(&sbs, target_name);
    let ghost cv = blocks_view(ctx@);
    let ghost sv = blocks_view(sub@);
    let mut changes: Vec<ContextChange> = Vec::new();
    if !same_ws(cp.as_str(), sp.as_str()) && !(cp.as_str().is_empty() && sp.as_str().is_empty()) {
        let kind = if blank(cp.as_str()) {
            ContextChangeKind::Added
        } else if blank(sp.as_str()) {
            ContextChangeKind::Removed
        } else {
            ContextChangeKind::Modified
        };
        changes.push(ContextChange {
            kind,
            name: owned("<preamble>"),
            context_text: nonempty(&cp),
            submitted_text: nonempty(&sp),
        });
    }
    let ghost pre = changes_view(changes@);
    assert(pre =~= preamble_change(cp@, sp@));
    let mut used: Vec<bool> = Vec::new();
    let mut k: usize = 0;
    while k < sub.len()
        invariant
            k <= sub@.len(),
            used@ == Seq::new(k as nat, |i: int| false),
        decreases sub@.len() - k,
    {
        used.push(false);
        assert(used@ =~= Seq::new((k + 1) as nat, |i: int| false));
        k = k + 1;
    }
    let mut i: usize = 0;
    while i < ctx.len()
        invariant
            i <= ctx@.len(),
            cv == blocks_view(ctx@),
            sv == blocks_view(sub@),
            used@.len() == sub@.len(),
            (used@, changes_view(changes@)) == (pair_upto(cv, sv, i as int).0, pre + pair_upto(cv, sv, i as int).1),
        decreases ctx@.len() - i,
    {
        let cb = &ctx[i];
        assert(cv[i as int] == (cb.name@, cb.text@));
        let ghost u0 = used@;
        let mut hit: Option<usize> = None;
        let mut j: usize = 0;
        while j < sub.len() && hit.is_none()
            invariant
                j <= sub@.len(),
                used@.len() == sub@.len(),
                sv == blocks_view(sub@),
                used@ == u0,
                hit matches Some(h) ==> first_unused(sv, u0, cb.name@, 0) == Some(h as int) && h < sub@.len(),
                hit is None ==> first_unused(sv, u0, cb.name@, 0) == first_unused(sv, u0, cb.name@, j as int),
            decreases sub@.len() - j,
        {
            assert(sv[j as int] == (sub@[j as int].name@, sub@[j as int].text@));
            if !used[j] && str_eq(sub[j].name.as_str(), cb.name.as_str()) {
                hit = Some(j);
            }
            j = j + 1;
        }
        assert(hit matches Some(h) ==> first_unused(sv, u0, cb.name@, 0) == Some(h as int) && h < sub@.len());
        assert(hit is None ==> first_unused(sv, u0, cb.name@, 0) is None);
        let ghost c0 = changes_view(changes@);
        match hit {
            Some(h) => {
                used.set(h, true);
                assert(sv[h as int] == (sub@[h as int].name@, sub@[h as int].text@));
                if !same_ws(cb.text.as_str(), sub[h].text.as_str()) {
                    let c = ContextChange {
                        kind: ContextChangeKind::Modified,
                        name: cb.name.clone(),
                        context_text: Some(cb.text.clone()),
                        submitted_text: Some(sub[h].text.clone()),
                    };
                    let ghost cvw = change_view(c);
                    changes.push(c);
                    assert(changes_view(changes@) =~= c0.push(cvw));
                }
            },
            None => {
                let c = ContextChange {
                    kind: ContextChangeKind::Removed,
                    name: cb.name.clone(),
                    context_text: Some(cb.text.clone()),
                    submitted_text: None,
                };
                let ghost cvw = change_view(c);
                changes.push(c);
                assert(changes_view(changes@) =~= c0.push(cvw));
            },
        }
        i = i + 1;
    }
    let ghost mid = changes_view(changes@);
    let mut j: usize = 0;
    while j < sub.len()
        invariant
            j <= sub@.len(),
            used@.len() == sub@.len(),
            sv == blocks_view(sub@),
            changes_view(changes@) == mid + added_upto(sv, used@, j as int),
        decreases sub@.len() - j,
    {
        if !used[j] {
            assert(sv[j as int] == (sub@[j as int].name@, sub@[j as int].text@));
            let ghost c0 = changes_view(changes@);
            let c = ContextChange {
                kind: ContextChangeKind::Added,
                name: sub[j].name.clone(),
                context_text: None,
                submitted_text: Some(sub[j].text.clone()),
            };
            let ghost cvw = change_view(c);
            changes.push(c);
            assert(changes_view(changes@) =~= c0.push(cvw));
        }
        j = j + 1;
    }
    assert(changes_view(changes@) =~= context_changes(supplied_context@, submitted_code@, target_name@));
    let ghost chv = changes_view(changes@);
    let mut findings: Vec<String> = Vec::new();
    let mut f: usize = 0;
    while f < changes.len()
        invariant
            f <= changes@.len(),
            chv == changes_view(changes@),
            findings@.map_values(|x: String| x@) == chv.take(f as int).map_values(|c: SChange| change_msg(c, target_name@)),
        decreases changes@.len() - f,
    {
        let ghost f0 = findings@.map_values(|x: String| x@);
        let line = change_line(&changes[f], target_name);
        findings.push(line);
        assert(chv[f as int] == change_view(changes@[f as int]));
        assert(findings@.map_values(|x: String| x@) =~= f0.push(change_msg(chv[f as int], target_name@)));
        assert(chv.take(f + 1).map_values(|c: SChange| change_msg(c, target_name@)) =~= chv.take(f as int).map_values(
            |c: SChange| change_msg(c, target_name@),
        ).push(change_msg(chv[f as int], target_name@)));
        f = f + 1;
    }
    assert(chv.take(changes@.len() as int) == chv);
    let intact = changes.len() == 0;
    ContextIntegrityReport { intact, target: owned(target_name), changes, findings }
}

/// The target a canonical statement names: its first declaration's name, or
/// empty when it does not parse.
pub open spec fn canonical_target(canonical: Seq<char>) -> Seq<char> {
    if all_sigs_spec(canonical).len() > 0 { all_sigs_spec(canonical)[0].name } else { Seq::empty() }
}

/// [`check_context_preserved`] with the target read off the canonical
/// statement (nothing is excluded when it does not parse).
pub fn check_context_preserved_for(canonical_statement: &str, supplied_context: &str, submitted_code: &str) -> (r: ContextIntegrityReport)
    ensures
        changes_view(r.changes@) == context_changes(supplied_context@, submitted_code@, canonical_target(canonical_statement@)),
        r.findings@.map_values(|f: String| f@) == changes_view(r.changes@).map_values(
            |c: SChange| change_msg(c, canonical_target(canonical_statement@)),
        ),
        r.intact == (r.changes@.len() == 0),
        r.target@ == canonical_target(canonical_statement@),
{
    let sigs = parse_all_decls(canonical_statement);
    let target = if sigs.len() > 0 {
        assert(crate::statement_signature::sigs_view(sigs@)[0] == sigs@[0]@);
        sigs[0].name.clone()
    } else {
        String::new()
    };
    check_context_preserved(supplied_context, submitted_code, target.as_str())
}

// ===========================================================================
// Laws
// ===========================================================================

proof fn lemma_first_unused_self(sub: Seq<(Seq<char>, Seq<char>)>, used: Seq<bool>, k: int, j: int)
    requires
        0 <= j <= k < sub.len(),
        used.len() == sub.len(),
        !used[k],
        forall|i: int| j <= i < k ==> used[i],
    ensures
        first_unused(sub, used, sub[k].0, j) == Some(k),
    decreases k - j,
{
    if j < k {
        lemma_first_unused_self(sub, used, k, j + 1);
    }
}

proof fn lemma_pair_self(ctx: Seq<(Seq<char>, Seq<char>)>, k: int)
    requires
        0 <= k <= ctx.len(),
    ensures
        pair_upto(ctx, ctx, k).0 == Seq::new(ctx.len(), |i: int| i < k),
        pair_upto(ctx, ctx, k).1 == Seq::<SChange>::empty(),
    decreases k,
{
    if k == 0 {
        assert(Seq::new(ctx.len(), |i: int| false) =~= Seq::new(ctx.len(), |i: int| i < 0));
    } else {
        lemma_pair_self(ctx, k - 1);
        let used = Seq::new(ctx.len(), |i: int| i < k - 1);
        lemma_first_unused_self(ctx, used, k - 1, 0);
        assert(used.update(k - 1, true) =~= Seq::new(ctx.len(), |i: int| i < k));
    }
}

proof fn lemma_added_none(sub: Seq<(Seq<char>, Seq<char>)>, n: int)
    requires
        0 <= n <= sub.len(),
    ensures
        added_upto(sub, Seq::new(sub.len(), |i: int| i < sub.len()), n) == Seq::<SChange>::empty(),
    decreases n,
{
    if n > 0 {
        lemma_added_none(sub, n - 1);
    }
}

/// A submission identical to the context it was given is intact: nothing is
/// reported as modified, removed or added, whatever the target.
pub proof fn lemma_context_self_intact(src: Seq<char>, target: Seq<char>)
    ensures
        context_changes(src, src, target).len() == 0,
{
    let (cp, cbs) = decl_blocks_spec(src);
    let ctx = without_target(cbs, target, cbs.len() as int);
    lemma_pair_self(ctx, ctx.len() as int);
    lemma_added_none(ctx, ctx.len() as int);
    assert(Seq::new(ctx.len(), |i: int| i < ctx.len() as int) == pair_upto(ctx, ctx, ctx.len() as int).0);
    assert(preamble_change(cp, cp) == Seq::<SChange>::empty());
}


proof fn lemma_without_target_names(bs: Seq<(Seq<char>, Seq<char>)>, t: Seq<char>, n: int)
    requires
        n <= bs.len(),
    ensures
        forall|i: int| 0 <= i < without_target(bs, t, n).len() ==> (#[trigger] without_target(bs, t, n)[i]).0 != t,
    decreases n,
{
    if n > 0 {
        lemma_without_target_names(bs, t, n - 1);
        let prev = without_target(bs, t, n - 1);
        if bs[n - 1].0 != t {
            let cur = prev.push(bs[n - 1]);
            assert forall|i: int| 0 <= i < cur.len() implies (#[trigger] cur[i]).0 != t by {
                if i < prev.len() {
                    assert(cur[i] == prev[i]);
                }
            }
        }
    }
}

proof fn lemma_pair_names(ctx: Seq<(Seq<char>, Seq<char>)>, sub: Seq<(Seq<char>, Seq<char>)>, t: Seq<char>, n: int)
    requires
        n <= ctx.len(),
        forall|i: int| 0 <= i < ctx.len() ==> (#[trigger] ctx[i]).0 != t,
    ensures
        forall|k: int| 0 <= k < pair_upto(ctx, sub, n).1.len() ==> (#[trigger] pair_upto(ctx, sub, n).1[k]).name != t,
    decreases n,
{
    if n > 0 {
        lemma_pair_names(ctx, sub, t, n - 1);
        let cs = pair_upto(ctx, sub, n - 1).1;
        let cs2 = pair_upto(ctx, sub, n).1;
        assert(ctx[n - 1].0 != t);
        assert forall|k: int| 0 <= k < cs2.len() implies (#[trigger] cs2[k]).name != t by {
            if k < cs.len() {
                assert(cs2[k] == cs[k]);
            }
        }
    }
}

proof fn lemma_added_names(sub: Seq<(Seq<char>, Seq<char>)>, used: Seq<bool>, t: Seq<char>, n: int)
    requires
        n <= sub.len(),
        forall|i: int| 0 <= i < sub.len() ==> (#[trigger] sub[i]).0 != t,
    ensures
        forall|k: int| 0 <= k < added_upto(sub, used, n).len() ==> (#[trigger] added_upto(sub, used, n)[k]).name != t,
    decreases n,
{
    if n > 0 {
        lemma_added_names(sub, used, t, n - 1);
        let a = added_upto(sub, used, n - 1);
        let a2 = added_upto(sub, used, n);
        assert(sub[n - 1].0 != t);
        assert forall|k: int| 0 <= k < a2.len() implies (#[trigger] a2[k]).name != t by {
            if k < a.len() {
                assert(a2[k] == a[k]);
            }
        }
    }
}

/// The target is never reported as a change (unless it is named like the
/// preamble), and every finding line starts with `CONTEXT_ALTERED:`.
pub proof fn lemma_context_report_shape(ctx_src: Seq<char>, sub_src: Seq<char>, target: Seq<char>)
    ensures
        target != "<preamble>"@ ==> forall|k: int|
            0 <= k < context_changes(ctx_src, sub_src, target).len() ==> (#[trigger] context_changes(
                ctx_src,
                sub_src,
                target,
            )[k]).name != target,
        forall|c: SChange| #[trigger] change_msg(c, target).len() >= 16 && change_msg(c, target).take(16) == "CONTEXT_ALTERED:"@,
{
    let (cp, cbs) = decl_blocks_spec(ctx_src);
    let (sp, sbs) = decl_blocks_spec(sub_src);
    let ctx = without_target(cbs, target, cbs.len() as int);
    let sub = without_target(sbs, target, sbs.len() as int);
    lemma_without_target_names(cbs, target, cbs.len() as int);
    lemma_without_target_names(sbs, target, sbs.len() as int);
    let (used, cs) = pair_upto(ctx, sub, ctx.len() as int);
    if target != "<preamble>"@ {
        lemma_pair_names(ctx, sub, target, ctx.len() as int);
        lemma_added_names(sub, used, target, sub.len() as int);
        let pc = preamble_change(cp, sp);
        let ad = added_upto(sub, used, sub.len() as int);
        let all = pc + cs + ad;
        assert forall|k: int| 0 <= k < all.len() implies (#[trigger] all[k]).name != target by {
            if k < pc.len() {
                assert(all[k] == pc[k]);
            } else if k < pc.len() + cs.len() {
                assert(all[k] == cs[k - pc.len()]);
            } else {
                assert(all[k] == ad[k - pc.len() - cs.len()]);
            }
        }
    }
    assert forall|c: SChange| #[trigger] change_msg(c, target).len() >= 16 && change_msg(c, target).take(16)
        == "CONTEXT_ALTERED:"@ by {
        reveal_strlit("CONTEXT_ALTERED:");
        reveal_strlit("CONTEXT_ALTERED: given material `");
        reveal_strlit("CONTEXT_ALTERED: the submission ADDED top-level declaration `");
        let m = change_msg(c, target);
        match c.kind {
            ContextChangeKind::Modified => {
                let p = "CONTEXT_ALTERED: given material `"@;
                assert(m.take(16) =~= p.take(16));
            },
            ContextChangeKind::Removed => {
                let p = "CONTEXT_ALTERED: given material `"@;
                assert(m.take(16) =~= p.take(16));
            },
            ContextChangeKind::Added => {
                let p = "CONTEXT_ALTERED: the submission ADDED top-level declaration `"@;
                assert(m.take(16) =~= p.take(16));
            },
        }
    }
}
} // verus!
