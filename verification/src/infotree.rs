//! The goal state at an error position, read from Lean's infotree.
//!
//! Lean's infotree is a forest of elaboration nodes, each carrying the source
//! range it elaborated and, for tactic nodes, the goals before and after the
//! tactic ran. The state at an error position is the state of the tightest
//! node whose range contains it: among the containing nodes the one with the
//! least summed distance from the position to both endpoints wins (a line
//! counts [`LINE_WEIGHT`] columns), ties going to the deeper node and then to
//! the earlier one in document order.
//!
//! Infotree positions are 1-based in lines and 0-based in columns;
//! diagnostics are 1-based in both. Positions are rebased when a raw node is
//! normalized, so every comparison happens in the diagnostics' convention.
//!
//! Everything here is total: a node without a usable range is skipped as a
//! candidate while its children are still visited, and a tree that yields
//! nothing leaves every diagnostic as it was.
use vstd::prelude::*;
use crate::error_feedback::{diags_view, Diagnostic, SDiag};
use crate::formal::FormalSystem;
use crate::goal_state::{parse_goal_state_lowered, parse_spec, render_spec};
use crate::text::{chars_of, join, lemma_join_push, lowercase, owned, push_char, rtrim, to_lowercase, trim, white_pred};

verus! {

// ===========================================================================
// Conventions
// ===========================================================================

/// Base of the `column` field of an infotree position (0-based).
pub const INFOTREE_COLUMN_BASE: usize = 0;
/// Base of the `line` field of an infotree position (1-based).
pub const INFOTREE_LINE_BASE: usize = 1;
/// Base of a diagnostic's columns (1-based).
pub const DIAGNOSTIC_COLUMN_BASE: usize = 1;
/// Base of a diagnostic's lines (1-based).
pub const DIAGNOSTIC_LINE_BASE: usize = 1;

/// Weight of a line difference when scoring candidate nodes: one line counts
/// as ten columns.
pub const LINE_WEIGHT: usize = 10;

/// Default ceiling on how many diagnostics get a goal state attached.
pub const DEFAULT_GOAL_STATE_CAP: usize = 3;

/// The REPL request field that makes Lean emit an infotree at all.
pub const REPL_INFOTREE_FIELD: &'static str = "infotree";
/// The value [`REPL_INFOTREE_FIELD`] must take: the source-ranged tree.
pub const REPL_INFOTREE_VALUE: &'static str = "original";

/// The keys under which a wrapper object may hold the trees, in the order
/// they are tried.
pub open spec fn wrapper_keys_spec() -> Seq<Seq<char>> {
    seq![REPL_INFOTREE_FIELD@, "infoTree"@, "infotrees"@, "trees"@]
}

/// Search a wrapper object for the trees: ask `lookup` for each wrapper key
/// in order (see [`wrapper_keys_spec`]) and return the first answer found;
/// `None` when no key yields one. The keys after the first found are not
/// asked.
pub fn first_in_wrapper<T, F: Fn(&str) -> Option<T>>(lookup: &F) -> (r: Option<T>)
    requires
        forall|k: &str| #[trigger] lookup.requires((k,)),
    ensures
        exists|ks: Seq<&str>, answers: Seq<Option<T>>|
            {
                &&& ks.map_values(|k: &str| k@) == wrapper_keys_spec()
                &&& answers.len() <= ks.len()
                &&& forall|j: int| 0 <= j < answers.len() ==> lookup.ensures((ks[j],), #[trigger] answers[j])
                &&& forall|j: int| 0 <= j < answers.len() - 1 ==> (#[trigger] answers[j]) is None
                &&& match r {
                    Some(x) => answers.len() > 0 && answers.last() == Some(x),
                    None => answers.len() == ks.len() && forall|j: int| 0 <= j < answers.len() ==> (#[trigger] answers[j]) is None,
                }
            },
{
    let keys: [&str; 4] = [REPL_INFOTREE_FIELD, "infoTree", "infotrees", "trees"];
    let ghost ks = keys@;
    assert(ks.map_values(|k: &str| k@) =~= wrapper_keys_spec());
    let ghost mut answers: Seq<Option<T>> = Seq::empty();
    let mut i: usize = 0;
    while i < 4
        invariant
            0 <= i <= 4,
            ks == keys@,
            ks.len() == 4,
            ks.map_values(|k: &str| k@) == wrapper_keys_spec(),
            forall|k: &str| #[trigger] lookup.requires((k,)),
            answers.len() == i,
            forall|j: int| 0 <= j < answers.len() ==> lookup.ensures((ks[j],), #[trigger] answers[j]),
            forall|j: int| 0 <= j < answers.len() ==> (#[trigger] answers[j]) is None,
        decreases 4 - i,
    {
        let found = lookup(keys[i]);
        let ghost prev = answers;
        proof {
            answers = answers.push(found);
            assert forall|j: int| 0 <= j < answers.len() - 1 implies (#[trigger] answers[j]) is None by {
                assert(answers[j] == prev[j]);
            }
            assert forall|j: int| 0 <= j < answers.len() implies lookup.ensures((ks[j],), #[trigger] answers[j]) by {
                if j < prev.len() {
                    assert(answers[j] == prev[j]);
                }
            }
        }
        match found {
            Some(x) => {
                let r: Option<T> = Some(x);
                assert({
                    &&& ks.map_values(|k: &str| k@) == wrapper_keys_spec()
                    &&& answers.len() <= ks.len()
                    &&& forall|j: int| 0 <= j < answers.len() ==> lookup.ensures((ks[j],), #[trigger] answers[j])
                    &&& forall|j: int| 0 <= j < answers.len() - 1 ==> (#[trigger] answers[j]) is None
                    &&& match r {
                        Some(x) => answers.len() > 0 && answers.last() == Some(x),
                        None => answers.len() == ks.len() && forall|j: int| 0 <= j < answers.len() ==> (#[trigger] answers[j]) is None,
                    }
                });
                return r;
            },
            None => {},
        }
        i = i + 1;
    }
    None
}

/// Heading introducing the post-tactic state when a node reports one.
pub const AFTER_HEADING: &'static str = "-- after the failing step --";

// ===========================================================================
// The raw model, as the REPL emits it
// ===========================================================================

/// A raw `{"line": L, "column": C}` position, in infotree bases.
#[derive(Debug, Clone, Default, PartialEq, Eq)]
pub struct RawPos {
    pub line: Option<usize>,
    pub column: Option<usize>,
}

/// A raw `{"start": …, "finish": …}` range.
#[derive(Debug, Clone, Default, PartialEq, Eq)]
pub struct RawRange {
    pub start: Option<RawPos>,
    pub finish: Option<RawPos>,
}

/// The `stx` sub-object, whose `range` is where the range usually lives.
#[derive(Debug, Clone, Default, PartialEq, Eq)]
pub struct RawSyntax {
    pub range: Option<RawRange>,
}

/// A JSON value in a goal payload of an unanticipated shape: what goal text
/// can be read from it (strings, arrays, and objects by key); numbers,
/// booleans and `null` carry none.
#[derive(Debug, PartialEq, Eq)]
pub enum GoalJson {
    Scalar,
    Str(String),
    Arr(Vec<GoalJson>),
    /// An object's members as parallel lists of distinct keys and their
    /// values.
    Obj(Vec<String>, Vec<GoalJson>),
}

/// A goal payload: a list of strings, one string, or another shape.
#[derive(Debug, PartialEq, Eq)]
pub enum RawGoals {
    Many(Vec<String>),
    One(String),
    Other(GoalJson),
}

/// The payload of one infotree node: where it is, and what goals it saw.
#[derive(Debug, Default, PartialEq, Eq)]
pub struct RawNodeBody {
    pub stx: Option<RawSyntax>,
    pub range: Option<RawRange>,
    pub goals_before: Option<RawGoals>,
    pub goals_after: Option<RawGoals>,
}

/// One raw infotree entry: an optional wrapped body, the same fields inline,
/// and children under either key.
#[derive(Debug, Default, PartialEq, Eq)]
pub struct RawNode {
    /// The `{"node": {…}}` wrapper.
    pub node: Option<RawNodeBody>,
    /// The same fields when they appear directly on the entry.
    pub inline: RawNodeBody,
    pub kids: Vec<RawNode>,
    pub children: Vec<RawNode>,
}

// ===========================================================================
// The normalized model
// ===========================================================================

/// A position in the diagnostics' convention: 1-based line and column.
#[derive(Debug, Clone, Copy, PartialEq, Eq, PartialOrd, Ord)]
pub struct Pos {
    pub line: usize,
    pub col: usize,
}

/// An inclusive source span.
#[derive(Debug, Clone, Copy, PartialEq, Eq)]
pub struct Span {
    pub start: Pos,
    pub end: Pos,
}

/// A normalized infotree node; `span` is `None` when the range was missing
/// or unusable.
#[derive(Debug, PartialEq, Eq)]
pub struct Node {
    pub span: Option<Span>,
    pub goals_before: Vec<String>,
    pub goals_after: Vec<String>,
    pub kids: Vec<Node>,
}

/// A parsed infotree: a forest, one tree per command.
#[derive(Debug, Default, PartialEq, Eq)]
pub struct InfoTree {
    pub roots: Vec<Node>,
}

/// The model of a node: its span, its goal texts and its children.
pub ghost struct NodeV {
    pub span: Option<Span>,
    pub before: Seq<Seq<char>>,
    pub after: Seq<Seq<char>>,
    pub kids: Seq<NodeV>,
}

/// The texts of a sequence of strings.
pub open spec fn texts(v: Seq<String>) -> Seq<Seq<char>> {
    v.map_values(|s: String| s@)
}

/// The model of a node.
pub open spec fn node_view(n: Node) -> NodeV
    decreases n, 0int,
{
    NodeV {
        span: n.span,
        before: texts(n.goals_before@),
        after: texts(n.goals_after@),
        kids: nodes_view(n.kids@, n.kids@.len() as int),
    }
}

/// The models of the first `k` nodes of `s`.
pub open spec fn nodes_view(s: Seq<Node>, k: int) -> Seq<NodeV>
    decreases s, k,
{
    if k <= 0 || k > s.len() {
        Seq::empty()
    } else {
        nodes_view(s, k - 1).push(node_view(s[k - 1]))
    }
}

/// The model of a forest.
pub open spec fn forest_view(s: Seq<Node>) -> Seq<NodeV> {
    nodes_view(s, s.len() as int)
}

/// `nodes_view` has one model per node, each the node's own.
pub proof fn lemma_nodes_view(s: Seq<Node>, k: int)
    requires
        0 <= k <= s.len(),
    ensures
        nodes_view(s, k).len() == k,
        forall|i: int| 0 <= i < k ==> #[trigger] nodes_view(s, k)[i] == node_view(s[i]),
    decreases k,
{
    if k > 0 {
        lemma_nodes_view(s, k - 1);
    }
}

impl Node {
    /// Whether this node carries any goal state at all.
    pub fn has_goals(&self) -> (r: bool)
        ensures
            r == (self.goals_before@.len() > 0 || self.goals_after@.len() > 0),
    {
        self.goals_before.len() > 0 || self.goals_after.len() > 0
    }
}

impl InfoTree {
    /// Whether the forest has no trees.
    pub fn is_empty(&self) -> (r: bool)
        ensures
            r == (self.roots@.len() == 0),
    {
        self.roots.len() == 0
    }
}

// ===========================================================================
// Normalizing raw nodes
// ===========================================================================

/// Whether a text is not blank.
pub open spec fn nonblank(s: Seq<char>) -> bool {
    trim(s, white_pred()).len() > 0
}

/// [`nonblank`] computed.
fn is_nonblank(s: &str) -> (r: bool)
    ensures
        r == nonblank(s@),
{
    !crate::exec::is_blank(s)
}

/// The non-blank texts among the first `k` of `v`, in order.
pub open spec fn nonblank_upto(v: Seq<Seq<char>>, k: int) -> Seq<Seq<char>>
    decreases k,
{
    if k <= 0 || k > v.len() {
        Seq::empty()
    } else if nonblank(v[k - 1]) {
        nonblank_upto(v, k - 1).push(v[k - 1])
    } else {
        nonblank_upto(v, k - 1)
    }
}

/// The member `k` of an object with keys `ks` and values `vs`, if present.
pub open spec fn obj_get(ks: Seq<String>, vs: Seq<GoalJson>, k: Seq<char>) -> Option<GoalJson>
    decreases ks.len(),
{
    if ks.len() == 0 || vs.len() == 0 {
        None
    } else if ks[0]@ == k {
        Some(vs[0])
    } else {
        obj_get(ks.drop_first(), vs.drop_first(), k)
    }
}

/// The string member `k` of an object, if present and a string.
pub open spec fn obj_str(ks: Seq<String>, vs: Seq<GoalJson>, k: Seq<char>) -> Option<Seq<char>> {
    match obj_get(ks, vs, k) {
        Some(GoalJson::Str(s)) => Some(s@),
        _ => None,
    }
}

/// The text of the first of `goal`, `pp`, `type`, `goalState` that is a
/// string member of the object.
pub open spec fn obj_goal_text(ks: Seq<String>, vs: Seq<GoalJson>) -> Option<Seq<char>> {
    match obj_str(ks, vs, "goal"@) {
        Some(s) => Some(s),
        None => match obj_str(ks, vs, "pp"@) {
            Some(s) => Some(s),
            None => match obj_str(ks, vs, "type"@) {
                Some(s) => Some(s),
                None => obj_str(ks, vs, "goalState"@),
            },
        },
    }
}

/// The goal texts readable from a value of an unanticipated shape: a
/// non-blank string; the goals of each array item, in order; an object's
/// first goal-bearing string member when it is non-blank; nothing else.
pub open spec fn value_goals_spec(v: GoalJson) -> Seq<Seq<char>>
    decreases v, 0int,
{
    match v {
        GoalJson::Str(s) => if nonblank(s@) { seq![s@] } else { Seq::empty() },
        GoalJson::Arr(items) => items_goals(items@, items@.len() as int),
        GoalJson::Obj(ks, vs) => match obj_goal_text(ks@, vs@) {
            Some(s) => if nonblank(s) { seq![s] } else { Seq::empty() },
            None => Seq::empty(),
        },
        GoalJson::Scalar => Seq::empty(),
    }
}

/// The goal texts of the first `k` items, concatenated.
pub open spec fn items_goals(items: Seq<GoalJson>, k: int) -> Seq<Seq<char>>
    decreases items, k,
{
    if k <= 0 || k > items.len() {
        Seq::empty()
    } else {
        items_goals(items, k - 1) + value_goals_spec(items[k - 1])
    }
}

/// The goal texts of an optional payload.
pub open spec fn goal_texts(g: Option<RawGoals>) -> Seq<Seq<char>> {
    match g {
        None => Seq::empty(),
        Some(RawGoals::Many(v)) => nonblank_upto(texts(v@), v@.len() as int),
        Some(RawGoals::One(s)) => if nonblank(s@) { seq![s@] } else { Seq::empty() },
        Some(RawGoals::Other(j)) => value_goals_spec(j),
    }
}

/// Appending the strings `src` to `out`.
fn append_strings(out: &mut Vec<String>, src: &Vec<String>)
    ensures
        texts(final(out)@) == texts(old(out)@) + texts(src@),
{
    let ghost o = texts(out@);
    let mut i: usize = 0;
    while i < src.len()
        invariant
            i <= src@.len(),
            texts(out@) == o + texts(src@).take(i as int),
        decreases src@.len() - i,
    {
        let c = owned(src[i].as_str());
        let ghost o1 = texts(out@);
        out.push(c);
        assert(texts(out@) =~= o1.push(src@[i as int]@));
        assert(texts(src@).take(i + 1) =~= texts(src@).take(i as int).push(src@[i as int]@));
        i = i + 1;
    }
    assert(texts(src@).take(src@.len() as int) == texts(src@));
}

/// The member `k` of an object, computed.
fn obj_member<'a>(ks: &Vec<String>, vs: &'a Vec<GoalJson>, k: &str) -> (r: Option<&'a GoalJson>)
    ensures
        match r {
            Some(v) => obj_get(ks@, vs@, k@) == Some(*v),
            None => obj_get(ks@, vs@, k@) is None,
        },
{
    let mut i: usize = 0;
    assert(ks@.skip(0) == ks@ && vs@.skip(0) == vs@);
    while i < ks.len() && i < vs.len()
        invariant
            i <= ks@.len(),
            i <= vs@.len(),
            obj_get(ks@, vs@, k@) == obj_get(ks@.skip(i as int), vs@.skip(i as int), k@),
        decreases ks@.len() - i,
    {
        assert(ks@.skip(i as int).drop_first() == ks@.skip(i + 1));
        assert(vs@.skip(i as int).drop_first() == vs@.skip(i + 1));
        if crate::text::str_eq(ks[i].as_str(), k) {
            return Some(&vs[i]);
        }
        i = i + 1;
    }
    None
}

/// The string member `k` of an object, computed.
fn obj_string(ks: &Vec<String>, vs: &Vec<GoalJson>, k: &str) -> (r: Option<String>)
    ensures
        match r {
            Some(s) => obj_str(ks@, vs@, k@) == Some(s@),
            None => obj_str(ks@, vs@, k@) is None,
        },
{
    match obj_member(ks, vs, k) {
        Some(GoalJson::Str(s)) => Some(owned(s.as_str())),
        _ => None,
    }
}

/// The first string member among the goal-bearing keys.
fn obj_goal(ks: &Vec<String>, vs: &Vec<GoalJson>) -> (r: Option<String>)
    ensures
        match r {
            Some(s) => obj_goal_text(ks@, vs@) == Some(s@),
            None => obj_goal_text(ks@, vs@) is None,
        },
{
    proof {
        reveal_strlit("goal");
        reveal_strlit("pp");
        reveal_strlit("type");
        reveal_strlit("goalState");
    }
    match obj_string(ks, vs, "goal") {
        Some(s) => Some(s),
        None => match obj_string(ks, vs, "pp") {
            Some(s) => Some(s),
            None => match obj_string(ks, vs, "type") {
                Some(s) => Some(s),
                None => obj_string(ks, vs, "goalState"),
            },
        },
    }
}

/// [`value_goals_spec`] computed.
fn value_goals(v: &GoalJson) -> (r: Vec<String>)
    ensures
        texts(r@) == value_goals_spec(*v),
    decreases *v,
{
    match v {
        GoalJson::Str(s) => {
            let mut out: Vec<String> = Vec::new();
            if is_nonblank(s.as_str()) {
                out.push(owned(s.as_str()));
            }
            assert(texts(out@) =~= value_goals_spec(*v));
            out
        },
        GoalJson::Arr(items) => {
            proof {
                assert(decreases_to!(*v => *items));
                assert(decreases_to!(*items => items@));
            }
            let mut out: Vec<String> = Vec::new();
            let mut i: usize = 0;
            while i < items.len()
                invariant
                    i <= items@.len(),
                    *v == GoalJson::Arr(*items),
                    decreases_to!(*v => *items),
                    decreases_to!(*items => items@),
                    texts(out@) == items_goals(items@, i as int),
                decreases items@.len() - i,
            {
                proof {
                    assert(decreases_to!(items@ => items@[i as int]));
                    assert(decreases_to!(*v => items@[i as int]));
                }
                let part = value_goals(&items[i]);
                append_strings(&mut out, &part);
                i = i + 1;
            }
            out
        },
        GoalJson::Obj(ks, vs) => {
            let mut out: Vec<String> = Vec::new();
            match obj_goal(ks, vs) {
                Some(s) => {
                    if is_nonblank(s.as_str()) {
                        out.push(s);
                    }
                },
                None => {},
            }
            assert(texts(out@) =~= value_goals_spec(*v));
            out
        },
        GoalJson::Scalar => {
            let out: Vec<String> = Vec::new();
            assert(texts(out@) =~= value_goals_spec(*v));
            out
        },
    }
}

/// [`goal_texts`] computed.
fn goal_strings(g: &Option<RawGoals>) -> (r: Vec<String>)
    ensures
        texts(r@) == goal_texts(*g),
{
    match g {
        None => {
            let out: Vec<String> = Vec::new();
            assert(texts(out@) =~= goal_texts(*g));
            out
        },
        Some(RawGoals::Many(v)) => {
            let mut out: Vec<String> = Vec::new();
            let mut i: usize = 0;
            while i < v.len()
                invariant
                    i <= v@.len(),
                    texts(out@) == nonblank_upto(texts(v@), i as int),
                decreases v@.len() - i,
            {
                if is_nonblank(v[i].as_str()) {
                    out.push(owned(v[i].as_str()));
                }
                assert(texts(out@) =~= nonblank_upto(texts(v@), i + 1));
                i = i + 1;
            }
            out
        },
        Some(RawGoals::One(s)) => {
            let mut out: Vec<String> = Vec::new();
            if is_nonblank(s.as_str()) {
                out.push(owned(s.as_str()));
            }
            assert(texts(out@) =~= goal_texts(*g));
            out
        },
        Some(RawGoals::Other(j)) => value_goals(j),
    }
}

/// Whether a body carries nothing at all.
pub open spec fn body_is_empty(b: RawNodeBody) -> bool {
    b.stx is None && b.range is None && b.goals_before is None && b.goals_after is None
}

/// The body a raw node is read from: the wrapped one when present and not
/// empty, else the inline one.
pub open spec fn chosen_body(raw: RawNode) -> RawNodeBody {
    match raw.node {
        Some(b) => if !body_is_empty(b) { b } else { raw.inline },
        None => raw.inline,
    }
}

/// A body's range: its own, else its syntax's.
pub open spec fn body_range(b: RawNodeBody) -> Option<RawRange> {
    match b.range {
        Some(r) => Some(r),
        None => match b.stx {
            Some(x) => x.range,
            None => None,
        },
    }
}

/// A raw position rebased to the diagnostics' convention: the line shifted
/// by the difference of the line bases, the column by that of the column
/// bases; unusable when a coordinate is missing or the shift overflows.
pub open spec fn pos_from_raw(p: RawPos) -> Option<Pos> {
    match (p.line, p.column) {
        (Some(l), Some(c)) => {
            let line = l + (DIAGNOSTIC_LINE_BASE - INFOTREE_LINE_BASE);
            let col = c + (DIAGNOSTIC_COLUMN_BASE - INFOTREE_COLUMN_BASE);
            if line <= usize::MAX && col <= usize::MAX {
                Some(Pos { line: line as usize, col: col as usize })
            } else {
                None
            }
        },
        _ => None,
    }
}

/// Whether `a` comes strictly before `b` (line, then column).
pub open spec fn pos_lt(a: Pos, b: Pos) -> bool {
    a.line < b.line || (a.line == b.line && a.col < b.col)
}

/// The span of a body: both endpoints usable and not reversed.
pub open spec fn span_of(b: RawNodeBody) -> Option<Span> {
    match body_range(b) {
        Some(r) => match (r.start, r.finish) {
            (Some(s), Some(f)) => match (pos_from_raw(s), pos_from_raw(f)) {
                (Some(a), Some(e)) => if pos_lt(e, a) { None } else { Some(Span { start: a, end: e }) },
                _ => None,
            },
            _ => None,
        },
        None => None,
    }
}

/// The normalized model of a raw node: its chosen body's span and goals and
/// its normalized children (under `kids`, then under `children`); nothing
/// for an entry with no span, no goals and no children.
pub open spec fn normalize_spec(raw: RawNode) -> Option<NodeV>
    decreases raw, 0int,
{
    let b = chosen_body(raw);
    let kids = norm_list(raw.kids@, raw.kids@.len() as int) + norm_list(raw.children@, raw.children@.len() as int);
    let before = goal_texts(b.goals_before);
    let after = goal_texts(b.goals_after);
    if span_of(b) is None && before.len() == 0 && after.len() == 0 && kids.len() == 0 {
        None
    } else {
        Some(NodeV { span: span_of(b), before, after, kids })
    }
}

/// The normalized models of the first `k` raw nodes, the empty ones
/// dropped.
pub open spec fn norm_list(s: Seq<RawNode>, k: int) -> Seq<NodeV>
    decreases s, k,
{
    if k <= 0 || k > s.len() {
        Seq::empty()
    } else {
        match normalize_spec(s[k - 1]) {
            Some(v) => norm_list(s, k - 1).push(v),
            None => norm_list(s, k - 1),
        }
    }
}

/// The model of an optional node.
pub open spec fn opt_node_view(o: Option<Node>) -> Option<NodeV> {
    match o {
        Some(n) => Some(node_view(n)),
        None => None,
    }
}

/// The models of a prefix do not depend on what follows it.
proof fn lemma_nodes_view_prefix(s: Seq<Node>, t: Seq<Node>, k: int)
    requires
        0 <= k <= s.len(),
        k <= t.len(),
        s.take(k) == t.take(k),
    ensures
        nodes_view(s, k) == nodes_view(t, k),
    decreases k,
{
    if k > 0 {
        assert(s[k - 1] == s.take(k)[k - 1]);
        assert(t[k - 1] == t.take(k)[k - 1]);
        assert(s.take(k - 1) == s.take(k).take(k - 1));
        assert(t.take(k - 1) == t.take(k).take(k - 1));
        lemma_nodes_view_prefix(s, t, k - 1);
    }
}

/// Pushing a node extends the forest's model by the node's model.
proof fn lemma_forest_push(s: Seq<Node>, n: Node)
    ensures
        forest_view(s.push(n)) == forest_view(s).push(node_view(n)),
{
    let t = s.push(n);
    assert(t.take(s.len() as int) == s.take(s.len() as int));
    lemma_nodes_view_prefix(t, s, s.len() as int);
    assert(t[s.len() as int] == n);
}

/// A raw position rebased (see [`pos_from_raw`]).
fn pos_of(p: &RawPos) -> (r: Option<Pos>)
    ensures
        r == pos_from_raw(*p),
{
    match (p.line, p.column) {
        (Some(l), Some(c)) => {
            match (l.checked_add(DIAGNOSTIC_LINE_BASE - INFOTREE_LINE_BASE), c.checked_add(DIAGNOSTIC_COLUMN_BASE - INFOTREE_COLUMN_BASE)) {
                (Some(line), Some(col)) => Some(Pos { line, col }),
                _ => None,
            }
        },
        _ => None,
    }
}

/// [`span_of`] computed.
fn span_of_body(b: &RawNodeBody) -> (r: Option<Span>)
    ensures
        r == span_of(*b),
{
    let range = match &b.range {
        Some(r) => Some(r),
        None => match &b.stx {
            Some(x) => match &x.range {
                Some(r) => Some(r),
                None => None,
            },
            None => None,
        },
    };
    match range {
        Some(r) => match (&r.start, &r.finish) {
            (Some(s), Some(f)) => match (pos_of(s), pos_of(f)) {
                (Some(a), Some(e)) => {
                    if e.line < a.line || (e.line == a.line && e.col < a.col) {
                        None
                    } else {
                        Some(Span { start: a, end: e })
                    }
                },
                _ => None,
            },
            _ => None,
        },
        None => None,
    }
}

/// Normalize each raw node of `raws` onto `out`, dropping the empty ones.
fn normalize_into(out: &mut Vec<Node>, raws: &Vec<RawNode>)
    ensures
        forest_view(final(out)@) == forest_view(old(out)@) + norm_list(raws@, raws@.len() as int),
    decreases *raws,
{
    let ghost o = forest_view(out@);
    let mut i: usize = 0;
    proof {
        assert(decreases_to!(*raws => raws@));
    }
    while i < raws.len()
        invariant
            i <= raws@.len(),
            decreases_to!(*raws => raws@),
            forest_view(out@) == o + norm_list(raws@, i as int),
        decreases raws@.len() - i,
    {
        proof {
            assert(decreases_to!(raws@ => raws@[i as int]));
            assert(decreases_to!(*raws => raws@[i as int]));
        }
        match normalize(&raws[i]) {
            Some(n) => {
                proof {
                    lemma_forest_push(out@, n);
                }
                out.push(n);
            },
            None => {},
        }
        i = i + 1;
    }
}

/// Fold a raw node into a node (see [`normalize_spec`]).
pub fn normalize(raw: &RawNode) -> (r: Option<Node>)
    ensures
        opt_node_view(r) == normalize_spec(*raw),
    decreases *raw,
{
    let body = match &raw.node {
        Some(b) => if b.stx.is_some() || b.range.is_some() || b.goals_before.is_some() || b.goals_after.is_some() {
            b
        } else {
            &raw.inline
        },
        None => &raw.inline,
    };
    assert(*body == chosen_body(*raw));
    let span = span_of_body(body);
    let mut kids: Vec<Node> = Vec::new();
    proof {
        assert(decreases_to!(*raw => raw.kids));
        assert(decreases_to!(*raw => raw.children));
    }
    normalize_into(&mut kids, &raw.kids);
    normalize_into(&mut kids, &raw.children);
    assert(forest_view(Seq::<Node>::empty()) =~= Seq::<NodeV>::empty());
    let goals_before = goal_strings(&body.goals_before);
    let goals_after = goal_strings(&body.goals_after);
    if span.is_none() && goals_before.len() == 0 && goals_after.len() == 0 && kids.len() == 0 {
        proof {
            lemma_nodes_view(kids@, kids@.len() as int);
        }
        None
    } else {
        proof {
            lemma_nodes_view(kids@, kids@.len() as int);
        }
        Some(Node { span, goals_before, goals_after, kids })
    }
}

impl InfoTree {
    /// The forest of the normalized raw trees, or `None` when none of them
    /// yields a node.
    pub fn from_raw(raws: &Vec<RawNode>) -> (r: Option<InfoTree>)
        ensures
            match r {
                Some(t) => forest_view(t.roots@) == norm_list(raws@, raws@.len() as int)
                    && t.roots@.len() > 0,
                None => norm_list(raws@, raws@.len() as int).len() == 0,
            },
    {
        let mut roots: Vec<Node> = Vec::new();
        normalize_into(&mut roots, raws);
        assert(forest_view(Seq::<Node>::empty()) =~= Seq::<NodeV>::empty());
        proof {
            lemma_nodes_view(roots@, roots@.len() as int);
        }
        if roots.len() == 0 {
            None
        } else {
            Some(InfoTree { roots })
        }
    }
}

// ===========================================================================
// Node selection
// ===========================================================================

/// Whether the inclusive span contains `at`.
pub open spec fn span_contains(sp: Span, at: Pos) -> bool {
    !pos_lt(at, sp.start) && !pos_lt(sp.end, at)
}

/// `|a - b|`.
pub open spec fn abs_diff(a: int, b: int) -> int {
    if a >= b { a - b } else { b - a }
}

/// The weighted distance between two positions: a line of difference
/// counts [`LINE_WEIGHT`] columns.
pub open spec fn distance(a: Pos, b: Pos) -> int {
    LINE_WEIGHT * abs_diff(a.line as int, b.line as int) + abs_diff(a.col as int, b.col as int)
}

/// The score of a span for `at`: the distances to both endpoints, summed.
/// Smaller is tighter.
pub open spec fn score_spec(sp: Span, at: Pos) -> int {
    distance(sp.start, at) + distance(sp.end, at)
}

/// One more level of depth (saturating).
pub open spec fn deeper(d: usize) -> usize {
    if d < usize::MAX { (d + 1) as usize } else { d }
}

/// The pre-order entries (node, depth) of a tree whose root sits at depth
/// `d`: the root, then each child's entries in order.
pub open spec fn pre_one(n: NodeV, d: usize) -> Seq<(NodeV, usize)>
    decreases n, 0int,
{
    seq![(n, d)] + pre_range(n.kids, 0, n.kids.len() as int, deeper(d))
}

/// The pre-order entries of the trees `s[j..k]`, each rooted at depth `d`.
pub open spec fn pre_range(s: Seq<NodeV>, j: int, k: int, d: usize) -> Seq<(NodeV, usize)>
    decreases s, k,
{
    if j < 0 || k <= j || k > s.len() {
        Seq::empty()
    } else {
        pre_range(s, j, k - 1, d) + pre_one(s[k - 1], d)
    }
}

/// The pre-order entries of a forest, the roots at depth 0: document order.
pub open spec fn pre_forest(roots: Seq<NodeV>) -> Seq<(NodeV, usize)> {
    pre_range(roots, 0, roots.len() as int, 0)
}

/// Whether an entry may be chosen for `at`: it has a span containing `at`
/// and, when goals are required, goals.
pub open spec fn eligible(e: (NodeV, usize), at: Pos, require_goals: bool) -> bool {
    match e.0.span {
        Some(sp) => span_contains(sp, at) && (!require_goals || e.0.before.len() > 0 || e.0.after.len() > 0),
        None => false,
    }
}

/// Whether entry `a` (at index `ia`) beats entry `b` (at index `ib`): a
/// lower score, then a greater depth, then an earlier index.
pub open spec fn beats(a: (NodeV, usize), ia: int, b: (NodeV, usize), ib: int, at: Pos) -> bool {
    let sa = score_spec(a.0.span.unwrap(), at);
    let sb = score_spec(b.0.span.unwrap(), at);
    sa < sb || (sa == sb && (a.1 > b.1 || (a.1 == b.1 && ia < ib)))
}

/// The index of the best eligible entry among the first `n`.
pub open spec fn best_upto(es: Seq<(NodeV, usize)>, at: Pos, require_goals: bool, n: int) -> Option<int>
    decreases n,
{
    if n <= 0 || n > es.len() {
        None
    } else {
        let p = best_upto(es, at, require_goals, n - 1);
        if eligible(es[n - 1], at, require_goals) && (p is None || beats(es[n - 1], n - 1, es[p.unwrap()], p.unwrap(), at)) {
            Some(n - 1)
        } else {
            p
        }
    }
}

/// The node chosen for `at` in a forest: the best eligible pre-order entry.
pub open spec fn select_spec(roots: Seq<NodeV>, at: Pos, require_goals: bool) -> Option<NodeV> {
    let es = pre_forest(roots);
    match best_upto(es, at, require_goals, es.len() as int) {
        Some(i) => Some(es[i].0),
        None => None,
    }
}

/// The best index lies among the entries considered and is eligible.
proof fn lemma_best_upto(es: Seq<(NodeV, usize)>, at: Pos, require_goals: bool, n: int)
    ensures
        match best_upto(es, at, require_goals, n) {
            Some(i) => 0 <= i < n && eligible(es[i], at, require_goals),
            None => true,
        },
    decreases n,
{
    if n > 0 && n <= es.len() {
        lemma_best_upto(es, at, require_goals, n - 1);
    }
}

/// Peeling the first tree off a range of trees.
proof fn lemma_pre_range_front(s: Seq<NodeV>, j: int, k: int, d: usize)
    requires
        0 <= j < k <= s.len(),
    ensures
        pre_range(s, j, k, d) == pre_one(s[j], d) + pre_range(s, j + 1, k, d),
    decreases k,
{
    if k == j + 1 {
        assert(pre_range(s, j, j, d) == Seq::<(NodeV, usize)>::empty());
        assert(pre_range(s, j + 1, k, d) == Seq::<(NodeV, usize)>::empty());
        assert(pre_range(s, j, k, d) =~= pre_one(s[j], d) + pre_range(s, j + 1, k, d));
    } else {
        lemma_pre_range_front(s, j, k - 1, d);
        assert(pre_range(s, j, k, d) =~= pre_one(s[j], d) + pre_range(s, j + 1, k, d));
    }
}

/// The entries still to visit for an explicit stack (top last).
pub open spec fn pending(st: Seq<(&Node, usize)>) -> Seq<(NodeV, usize)>
    decreases st.len(),
{
    if st.len() == 0 {
        Seq::empty()
    } else {
        pre_one(node_view(*st.last().0), st.last().1) + pending(st.drop_last())
    }
}

/// `|a - b|` in a wide integer.
fn wide_diff(a: usize, b: usize) -> (r: u128)
    ensures
        r == abs_diff(a as int, b as int),
        r <= usize::MAX,
{
    if a >= b { (a - b) as u128 } else { (b - a) as u128 }
}

impl Span {
    /// Whether the span contains `at`, both ends included.
    pub fn contains(&self, at: Pos) -> (r: bool)
        ensures
            r == span_contains(*self, at),
    {
        let before_start = at.line < self.start.line || (at.line == self.start.line && at.col < self.start.col);
        let after_end = self.end.line < at.line || (self.end.line == at.line && self.end.col < at.col);
        !before_start && !after_end
    }

    /// The span's score for `at` (see [`score_spec`]), in a width where it
    /// cannot overflow.
    pub fn score(&self, at: Pos) -> (r: u128)
        ensures
            r == score_spec(*self, at),
    {
        let a = wide_diff(self.start.line, at.line);
        let b = wide_diff(self.start.col, at.col);
        let c = wide_diff(self.end.line, at.line);
        let e = wide_diff(self.end.col, at.col);
        assert(usize::MAX <= u64::MAX);
        10 * a + b + (10 * c + e)
    }
}

/// The node of `tree` chosen for `at` (see [`select_spec`]): the forest is
/// walked in document order with an explicit stack, so no input depth can
/// exhaust the call stack.
fn select<'a>(tree: &'a InfoTree, at: Pos, require_goals: bool) -> (r: Option<&'a Node>)
    ensures
        match r {
            Some(n) => select_spec(forest_view(tree.roots@), at, require_goals) == Some(node_view(*n)),
            None => select_spec(forest_view(tree.roots@), at, require_goals) is None,
        },
{
    let ghost rv = forest_view(tree.roots@);
    let ghost pf = pre_forest(rv);
    proof {
        lemma_nodes_view(tree.roots@, tree.roots@.len() as int);
    }
    let mut stack: Vec<(&Node, usize)> = Vec::new();
    let mut j: usize = tree.roots.len();
    while j > 0
        invariant
            j <= tree.roots@.len(),
            rv == forest_view(tree.roots@),
            rv.len() == tree.roots@.len(),
            forall|i: int| 0 <= i < rv.len() ==> #[trigger] rv[i] == node_view(tree.roots@[i]),
            pending(stack@) == pre_range(rv, j as int, rv.len() as int, 0),
        decreases j,
    {
        let ghost st0 = stack@;
        stack.push((&tree.roots[j - 1], 0));
        proof {
            assert(stack@.drop_last() == st0);
            lemma_pre_range_front(rv, j - 1, rv.len() as int, 0);
        }
        j = j - 1;
    }
    let mut best: Option<(&Node, u128, usize)> = None;
    let ghost mut order: int = 0;
    while stack.len() > 0
        invariant
            pf == pre_forest(rv),
            rv == forest_view(tree.roots@),
            pf == pf.take(order) + pending(stack@),
            0 <= order <= pf.len(),
            match best_upto(pf, at, require_goals, order) {
                Some(i) => match best {
                    Some((n, sc, dp)) => node_view(*n) == pf[i].0 && pf[i].0.span is Some
                        && sc == score_spec(pf[i].0.span.unwrap(), at) && dp == pf[i].1,
                    None => false,
                },
                None => best is None,
            },
        decreases pending(stack@).len(),
    {
        let ghost st0 = stack@;
        let (node, depth) = match stack.pop() {
            Some(e) => e,
            None => { return None; },
        };
        let ghost nv = node_view(*node);
        let ghost kv = nv.kids;
        proof {
            assert(st0.drop_last() == stack@);
            assert(pending(st0) == pre_one(nv, depth) + pending(stack@));
            assert(pf[order] == (nv, depth)) by {
                assert(pf[order] == (pf.take(order) + pending(st0))[order]);
            }
            lemma_nodes_view(node.kids@, node.kids@.len() as int);
            lemma_best_upto(pf, at, require_goals, order);
        }
        let ghost rest = stack@;
        let mut k: usize = node.kids.len();
        let nd: usize = if depth < usize::MAX { depth + 1 } else { depth };
        while k > 0
            invariant
                k <= node.kids@.len(),
                kv == nodes_view(node.kids@, node.kids@.len() as int),
                kv.len() == node.kids@.len(),
                forall|i: int| 0 <= i < kv.len() ==> #[trigger] kv[i] == node_view(node.kids@[i]),
                nd == deeper(depth),
                pending(stack@) == pre_range(kv, k as int, kv.len() as int, nd) + pending(rest),
            decreases k,
        {
            let ghost st1 = stack@;
            stack.push((&node.kids[k - 1], nd));
            proof {
                assert(stack@.drop_last() == st1);
                lemma_pre_range_front(kv, k - 1, kv.len() as int, nd);
                assert(pending(stack@) =~= pre_range(kv, k - 1, kv.len() as int, nd) + pending(rest));
            }
            k = k - 1;
        }
        proof {
            assert(pre_one(nv, depth) =~= seq![(nv, depth)] + pre_range(kv, 0, kv.len() as int, nd));
            assert(pf.take(order + 1) =~= pf.take(order).push((nv, depth)));
            assert(pf =~= pf.take(order + 1) + pending(stack@));
        }
        match node.span {
            Some(sp) => {
                if sp.contains(at) && (!require_goals || node.has_goals()) {
                    let sc = sp.score(at);
                    let better = match best {
                        None => true,
                        Some((_, bs, bd)) => sc < bs || (sc == bs && depth > bd),
                    };
                    if better {
                        best = Some((node, sc, depth));
                    }
                }
            },
            None => {},
        }
        proof {
            order = order + 1;
        }
    }
    proof {
        assert(pending(stack@) =~= Seq::<(NodeV, usize)>::empty());
        assert(pf.take(order) =~= pf);
    }
    match best {
        Some((n, _, _)) => Some(n),
        None => None,
    }
}

/// The tightest node of `tree` whose span contains `(line, col)` (1-based,
/// as a diagnostic reports it): the least [`score_spec`], then the deepest,
/// then the earliest in document order.
pub fn smallest_containing_node(tree: &InfoTree, line: usize, col: usize) -> (r: Option<&Node>)
    ensures
        match r {
            Some(n) => select_spec(forest_view(tree.roots@), Pos { line, col }, false) == Some(node_view(*n)),
            None => select_spec(forest_view(tree.roots@), Pos { line, col }, false) is None,
        },
{
    select(tree, Pos { line, col }, false)
}

/// As [`smallest_containing_node`], but only nodes that carry goals are
/// eligible.
pub fn smallest_containing_node_with_goals(tree: &InfoTree, line: usize, col: usize) -> (r: Option<&Node>)
    ensures
        match r {
            Some(n) => select_spec(forest_view(tree.roots@), Pos { line, col }, true) == Some(node_view(*n)),
            None => select_spec(forest_view(tree.roots@), Pos { line, col }, true) is None,
        },
{
    select(tree, Pos { line, col }, true)
}

// ===========================================================================
// Rendering and attachment
// ===========================================================================

/// The block for one list of goal texts: nothing for no goals; else the
/// texts joined by blank lines, normalized through the goal-state parser and
/// renderer when they parse to goals and passed through otherwise, with
/// trailing whitespace trimmed; nothing if that leaves no text.
pub open spec fn render_goals_spec(gs: Seq<Seq<char>>) -> Option<Seq<char>> {
    if gs.len() == 0 {
        None
    } else {
        let joined = join(gs, "\n\n"@);
        let parsed = parse_spec(joined, lowercase(joined));
        let r = if parsed.len() == 0 { rtrim(joined, white_pred()) } else { rtrim(render_spec(parsed), white_pred()) };
        if r.len() == 0 { None } else { Some(r) }
    }
}

/// The goal-state block of a node: the goals before the step, then, under
/// [`AFTER_HEADING`], the goals after it; nothing when it has neither.
pub open spec fn render_node_goals_spec(v: NodeV) -> Option<Seq<char>> {
    let h = AFTER_HEADING@;
    match (render_goals_spec(v.before), render_goals_spec(v.after)) {
        (None, None) => None,
        (Some(b), None) => Some(b),
        (None, Some(a)) => Some(h + "\n"@ + a),
        (Some(b), Some(a)) => Some(b + "\n"@ + h + "\n"@ + a),
    }
}

/// `s` without its trailing whitespace.
fn trim_end(s: &str) -> (r: String)
    ensures
        r@ == rtrim(s@, white_pred()),
{
    let v = chars_of(s);
    let e = crate::text::rskip_class(&v, 0, v.len(), crate::text::CharClass::White);
    assert(v@.subrange(0, v@.len() as int) == v@);
    assert(crate::text::class_pred(crate::text::CharClass::White) == white_pred());
    crate::text::string_of_range(&v, 0, e)
}

/// [`render_goals_spec`] computed.
fn render_goals(goals: &Vec<String>) -> (r: Option<String>)
    ensures
        match r {
            Some(t) => render_goals_spec(texts(goals@)) == Some(t@),
            None => render_goals_spec(texts(goals@)) is None,
        },
{
    if goals.len() == 0 {
        return None;
    }
    let ghost gv = texts(goals@);
    let mut joined = String::new();
    let mut i: usize = 0;
    while i < goals.len()
        invariant
            i <= goals@.len(),
            gv == texts(goals@),
            joined@ == join(gv.take(i as int), "\n\n"@),
        decreases goals@.len() - i,
    {
        proof {
            reveal_strlit("\n\n");
            lemma_join_push(gv.take(i as int), "\n\n"@, gv[i as int]);
            assert(gv.take(i + 1) == gv.take(i as int).push(gv[i as int]));
        }
        if i > 0 {
            joined.append("\n\n");
        }
        joined.append(goals[i].as_str());
        i = i + 1;
    }
    assert(gv.take(goals@.len() as int) == gv);
    let lowered = to_lowercase(joined.as_str());
    let parsed = parse_goal_state_lowered(joined.as_str(), lowered.as_str());
    let rendered = if parsed.is_empty() {
        trim_end(joined.as_str())
    } else {
        let full = parsed.render();
        trim_end(full.as_str())
    };
    if rendered.as_str().is_empty() {
        None
    } else {
        Some(rendered)
    }
}

/// Render a node's goals into the block a diagnostic's goal-state slot
/// holds (see [`render_node_goals_spec`]).
pub fn render_node_goals(node: &Node) -> (r: Option<String>)
    ensures
        match r {
            Some(t) => render_node_goals_spec(node_view(*node)) == Some(t@),
            None => render_node_goals_spec(node_view(*node)) is None,
        },
{
    let before = render_goals(&node.goals_before);
    let after = render_goals(&node.goals_after);
    proof {
        reveal_strlit("\n");
    }
    match (before, after) {
        (None, None) => None,
        (Some(b), None) => Some(b),
        (None, Some(a)) => {
            let mut out = owned(AFTER_HEADING);
            push_char(&mut out, '\n');
            out.append(a.as_str());
            Some(out)
        },
        (Some(b), Some(a)) => {
            let mut out = b;
            push_char(&mut out, '\n');
            out.append(AFTER_HEADING);
            push_char(&mut out, '\n');
            out.append(a.as_str());
            Some(out)
        },
    }
}

/// The goal-state text a diagnostic receives from a forest: only a Lean
/// diagnostic with a line and a start column and an empty slot is a
/// candidate; it receives the rendering of the tightest goal-bearing node
/// containing its position, if there is one and it renders.
pub open spec fn attach_text(d: SDiag, roots: Seq<NodeV>) -> Option<Seq<char>> {
    if d.system == FormalSystem::Lean && d.goal is None && d.line is Some && d.col_start is Some {
        match select_spec(roots, Pos { line: d.line.unwrap(), col: d.col_start.unwrap() }, true) {
            Some(v) => render_node_goals_spec(v),
            None => None,
        }
    } else {
        None
    }
}

/// The diagnostics after considering the first `n` in order, and how many
/// slots were filled: once `cap` are filled the rest are left as they are.
pub open spec fn attach_upto(ds: Seq<SDiag>, roots: Seq<NodeV>, cap: int, n: int) -> (Seq<SDiag>, int)
    decreases n,
{
    if n <= 0 || n > ds.len() {
        (ds, 0)
    } else {
        let (cur, f) = attach_upto(ds, roots, cap, n - 1);
        if f >= cap {
            (cur, f)
        } else {
            match attach_text(ds[n - 1], roots) {
                Some(t) => (cur.update(n - 1, SDiag { goal: Some(t), ..ds[n - 1] }), f + 1),
                None => (cur, f),
            }
        }
    }
}

/// What attaching does to the diagnostics `ds` with an optional forest and
/// a cap: nothing without a forest or with cap 0, else [`attach_upto`] over
/// all of them.
pub open spec fn attach_spec(ds: Seq<SDiag>, roots: Option<Seq<NodeV>>, cap: int) -> (Seq<SDiag>, int) {
    match roots {
        Some(rs) => if cap == 0 { (ds, 0) } else { attach_upto(ds, rs, cap, ds.len() as int) },
        None => (ds, 0),
    }
}

/// The model of an optional tree.
pub open spec fn opt_forest(t: Option<&InfoTree>) -> Option<Seq<NodeV>> {
    match t {
        Some(x) => Some(forest_view(x.roots@)),
        None => None,
    }
}

/// The filled count stays within the cap and the length, and entries past
/// `n` are untouched.
proof fn lemma_attach_upto(ds: Seq<SDiag>, roots: Seq<NodeV>, cap: int, n: int)
    requires
        0 <= n <= ds.len(),
        cap >= 1,
    ensures
        attach_upto(ds, roots, cap, n).0.len() == ds.len(),
        0 <= attach_upto(ds, roots, cap, n).1 <= n,
        attach_upto(ds, roots, cap, n).1 <= cap,
        forall|i: int| n <= i < ds.len() ==> #[trigger] attach_upto(ds, roots, cap, n).0[i] == ds[i],
    decreases n,
{
    if n > 0 {
        lemma_attach_upto(ds, roots, cap, n - 1);
    }
}

/// Fill the goal-state slot of up to `cap` diagnostics from the forest
/// `tree`, in order, returning how many were filled (see [`attach_spec`]).
/// Every diagnostic that receives nothing is left exactly as it was.
pub fn attach_goal_states(diagnostics: &mut Vec<Diagnostic>, tree: Option<&InfoTree>, cap: usize) -> (r: usize)
    ensures
        diags_view(final(diagnostics)@) == attach_spec(diags_view(old(diagnostics)@), opt_forest(tree), cap as int).0,
        r == attach_spec(diags_view(old(diagnostics)@), opt_forest(tree), cap as int).1,
{
    if cap == 0 {
        return 0;
    }
    let t = match tree {
        Some(t) => t,
        None => { return 0; },
    };
    let ghost ds = diags_view(diagnostics@);
    let ghost rv = forest_view(t.roots@);
    let mut filled: usize = 0;
    let mut i: usize = 0;
    while i < diagnostics.len()
        invariant
            i <= diagnostics@.len() == ds.len(),
            cap >= 1,
            tree == Some(t),
            rv == forest_view(t.roots@),
            ds == diags_view(old(diagnostics)@),
            (diags_view(diagnostics@), filled as int) == attach_upto(ds, rv, cap as int, i as int),
        decreases diagnostics@.len() - i,
    {
        proof {
            lemma_attach_upto(ds, rv, cap as int, i as int);
            lemma_attach_upto(ds, rv, cap as int, i + 1);
        }
        if filled >= cap {
            proof {
                lemma_attach_const(ds, rv, cap as int, i as int, ds.len() as int);
            }
            return filled;
        }
        let ghost cur = diags_view(diagnostics@);
        assert(cur[i as int] == ds[i as int]);
        let d = &diagnostics[i];
        let mut text: Option<String> = None;
        if d.system == FormalSystem::Lean && d.goal_state_slot.is_none() {
            match (d.line, d.col_start) {
                (Some(line), Some(col)) => {
                    match smallest_containing_node_with_goals(t, line, col) {
                        Some(node) => {
                            text = render_node_goals(node);
                        },
                        None => {},
                    }
                },
                _ => {},
            }
        }
        match text {
            Some(txt) => {
                let d = &diagnostics[i];
                let nd = Diagnostic {
                    system: d.system,
                    severity: d.severity,
                    line: d.line,
                    end_line: d.end_line,
                    col_start: d.col_start,
                    col_end: d.col_end,
                    message: owned(d.message.as_str()),
                    goal_state_slot: Some(txt),
                };
                let ghost before = diagnostics@;
                diagnostics.set(i, nd);
                proof {
                    assert(diags_view(diagnostics@) =~= diags_view(before).update(i as int, nd@));
                }
                filled = filled + 1;
            },
            None => {},
        }
        i = i + 1;
    }
    filled
}

/// Once the cap is reached, further diagnostics change nothing.
proof fn lemma_attach_const(ds: Seq<SDiag>, roots: Seq<NodeV>, cap: int, k: int, m: int)
    requires
        0 <= k <= m <= ds.len(),
        attach_upto(ds, roots, cap, k).1 >= cap,
    ensures
        attach_upto(ds, roots, cap, m) == attach_upto(ds, roots, cap, k),
    decreases m - k,
{
    if m > k {
        lemma_attach_const(ds, roots, cap, k, m - 1);
    }
}

// ===========================================================================
// Laws
// ===========================================================================

/// The chosen entry is the tightest eligible one: it is eligible, and no
/// eligible entry scores lower, nor scores the same from deeper down; with
/// no choice, nothing is eligible.
pub proof fn lemma_best_is_tightest(es: Seq<(NodeV, usize)>, at: Pos, require_goals: bool, n: int)
    requires
        0 <= n <= es.len(),
    ensures
        match best_upto(es, at, require_goals, n) {
            Some(i) => 0 <= i < n && eligible(es[i], at, require_goals) && forall|j: int|
                0 <= j < n && #[trigger] eligible(es[j], at, require_goals) ==> {
                    let si = score_spec(es[i].0.span.unwrap(), at);
                    let sj = score_spec(es[j].0.span.unwrap(), at);
                    si < sj || (si == sj && es[i].1 >= es[j].1)
                },
            None => forall|j: int| 0 <= j < n ==> !#[trigger] eligible(es[j], at, require_goals),
        },
    decreases n,
{
    if n > 0 {
        lemma_best_is_tightest(es, at, require_goals, n - 1);
        lemma_best_upto(es, at, require_goals, n - 1);
    }
}

/// Attaching fills at most `cap` slots, keeps the number of diagnostics,
/// and leaves every diagnostic that receives nothing exactly as it was;
/// a filled one differs only in its goal-state slot, which then holds the
/// rendering of its tightest goal-bearing node.
pub proof fn lemma_attach_respects_cap(ds: Seq<SDiag>, roots: Option<Seq<NodeV>>, cap: int)
    requires
        cap >= 0,
    ensures
        attach_spec(ds, roots, cap).1 <= cap,
        attach_spec(ds, roots, cap).0.len() == ds.len(),
        forall|i: int| 0 <= i < ds.len() ==> {
            let d = #[trigger] attach_spec(ds, roots, cap).0[i];
            d == ds[i] || (roots is Some && d == SDiag { goal: attach_text(ds[i], roots.unwrap()), ..ds[i] }
                && attach_text(ds[i], roots.unwrap()) is Some)
        },
{
    match roots {
        Some(rs) => if cap > 0 {
            lemma_attach_upto_shape(ds, rs, cap, ds.len() as int);
        },
        None => {},
    }
}

/// The shape of [`attach_upto`]: each entry is the input's or its filled
/// version.
proof fn lemma_attach_upto_shape(ds: Seq<SDiag>, roots: Seq<NodeV>, cap: int, n: int)
    requires
        0 <= n <= ds.len(),
        cap >= 1,
    ensures
        attach_upto(ds, roots, cap, n).1 <= cap,
        attach_upto(ds, roots, cap, n).0.len() == ds.len(),
        forall|i: int| 0 <= i < ds.len() ==> {
            let d = #[trigger] attach_upto(ds, roots, cap, n).0[i];
            d == ds[i] || (d == SDiag { goal: attach_text(ds[i], roots), ..ds[i] } && attach_text(ds[i], roots) is Some)
        },
    decreases n,
{
    lemma_attach_upto(ds, roots, cap, n);
    if n > 0 {
        lemma_attach_upto_shape(ds, roots, cap, n - 1);
    }
}

} // verus!
