//! HOL-Light-style primitive-inference proof log and an independent checker.
//!
//! A [`Proof`] is an ordered list of primitive-inference [`Step`]s, each naming
//! a rule of HOL Light's kernel, its premises by index and its parameters.
//! [`check_proof`] re-derives every inference from first principles —
//! including capture-avoiding substitution for `INST` / `INST_TYPE` and
//! alpha-correct `ABS` / `BETA` — and returns the final sequent, or an error if
//! any step is invalid.
//!
//! Every executable function here is proved equal to a spec function over the
//! mathematical model of terms ([`SType`], [`STerm`], [`SSequent`]); the
//! checker's contract is that it returns exactly the sequent the rules derive,
//! and fails exactly when some step is not a valid rule application.
use vstd::prelude::*;

use crate::text::{owned, push_char, str_eq};

verus! {

// ===========================================================================
// Types and terms, with their mathematical models.
// ===========================================================================

/// A HOL type: a type variable, or a type operator applied to argument types.
/// Function types are `Tyapp("fun", [dom, rng])`; `bool` is `Tyapp("bool", [])`.
#[derive(Debug)]
pub enum HolType {
    /// A type variable, e.g. `A`.
    Tyvar(String),
    /// A type-operator application, e.g. `fun`, `bool`, `list`.
    Tyapp(String, Vec<HolType>),
}

/// The model of a [`HolType`].
pub ghost enum SType {
    Tyvar(Seq<char>),
    Tyapp(Seq<char>, Seq<SType>),
}

/// The model of a type.
pub open spec fn ty_view(t: HolType) -> SType
    decreases t,
{
    match t {
        HolType::Tyvar(n) => SType::Tyvar(n@),
        HolType::Tyapp(n, args) => SType::Tyapp(n@, tys_view(args@)),
    }
}

/// The models of a sequence of types.
pub open spec fn tys_view(a: Seq<HolType>) -> Seq<SType>
    decreases a,
{
    if a.len() == 0 {
        Seq::empty()
    } else {
        seq![ty_view(a[0])] + tys_view(a.subrange(1, a.len() as int))
    }
}

impl View for HolType {
    type V = SType;

    open spec fn view(&self) -> SType {
        ty_view(*self)
    }
}

/// A HOL term: variable, constant, application, or abstraction. In a
/// well-formed [`Term::Abs`] the bound position is a [`Term::Var`].
#[derive(Debug)]
pub enum Term {
    /// A variable with its type.
    Var(String, HolType),
    /// A constant with its type.
    Const(String, HolType),
    /// Application `f x`.
    Comb(Box<Term>, Box<Term>),
    /// Abstraction `\v. body`.
    Abs(Box<Term>, Box<Term>),
}

/// The model of a [`Term`].
pub ghost enum STerm {
    Var(Seq<char>, SType),
    Const(Seq<char>, SType),
    Comb(Box<STerm>, Box<STerm>),
    Abs(Box<STerm>, Box<STerm>),
}

/// The model of a term.
pub open spec fn tm_view(t: Term) -> STerm
    decreases t,
{
    match t {
        Term::Var(n, ty) => STerm::Var(n@, ty@),
        Term::Const(n, ty) => STerm::Const(n@, ty@),
        Term::Comb(f, x) => STerm::Comb(Box::new(tm_view(*f)), Box::new(tm_view(*x))),
        Term::Abs(v, b) => STerm::Abs(Box::new(tm_view(*v)), Box::new(tm_view(*b))),
    }
}

impl View for Term {
    type V = STerm;

    open spec fn view(&self) -> STerm {
        tm_view(*self)
    }
}

/// The models of a sequence of terms.
pub open spec fn tms(s: Seq<Term>) -> Seq<STerm> {
    s.map_values(|t: Term| t@)
}

proof fn lemma_tys_view_index(a: Seq<HolType>)
    ensures
        tys_view(a).len() == a.len(),
        forall|i: int| 0 <= i < a.len() ==> #[trigger] tys_view(a)[i] == a[i]@,
    decreases a.len(),
{
    if a.len() > 0 {
        lemma_tys_view_index(a.subrange(1, a.len() as int));
        assert forall|i: int| 0 <= i < a.len() implies #[trigger] tys_view(a)[i] == a[i]@ by {
            if i > 0 {
                assert(a.subrange(1, a.len() as int)[i - 1] == a[i]);
            }
        }
    }
}

/// The function type `dom -> rng` in the model.
pub open spec fn fun_ty(dom: SType, rng: SType) -> SType {
    SType::Tyapp("fun"@, seq![dom, rng])
}

/// The type `bool` in the model.
pub open spec fn bool_ty() -> SType {
    SType::Tyapp("bool"@, Seq::empty())
}

/// The polymorphic equality constant at operand type `ty`.
pub open spec fn eq_const_spec(ty: SType) -> STerm {
    STerm::Const("="@, fun_ty(ty, fun_ty(ty, bool_ty())))
}

// ---------------------------------------------------------------------------
// Copying and comparing
// ---------------------------------------------------------------------------

/// A deep copy of a type.
#[verifier::loop_isolation(false)]
pub fn clone_ty(a: &HolType) -> (r: HolType)
    ensures
        r@ == a@,
    decreases a,
{
    match a {
        HolType::Tyvar(n) => HolType::Tyvar(n.clone()),
        HolType::Tyapp(n, args) => {
            let mut out: Vec<HolType> = Vec::new();
            let mut i: usize = 0;
            while i < args.len()
                invariant
                    i <= args@.len(),
                    out@.len() == i,
                    forall|j: int| 0 <= j < i ==> #[trigger] out@[j]@ == args@[j]@,
                decreases args@.len() - i,
            {
                proof {
                    assert(decreases_to!(*a => *args));
                    assert(decreases_to!(*args => args@));
                    assert(decreases_to!(args@ => args@[i as int]));
                }
                out.push(clone_ty(&args[i]));
                i = i + 1;
            }
            proof {
                lemma_tys_view_index(out@);
                lemma_tys_view_index(args@);
                assert(tys_view(out@) =~= tys_view(args@));
            }
            HolType::Tyapp(n.clone(), out)
        },
    }
}

/// Whether two types are equal.
#[verifier::loop_isolation(false)]
pub fn ty_eq(a: &HolType, b: &HolType) -> (r: bool)
    ensures
        r == (a@ == b@),
    decreases a,
{
    match (a, b) {
        (HolType::Tyvar(x), HolType::Tyvar(y)) => str_eq(x.as_str(), y.as_str()),
        (HolType::Tyapp(x, xs), HolType::Tyapp(y, ys)) => {
            proof {
                lemma_tys_view_index(xs@);
                lemma_tys_view_index(ys@);
            }
            if !str_eq(x.as_str(), y.as_str()) {
                return false;
            }
            if xs.len() != ys.len() {
                return false;
            }
            let mut i: usize = 0;
            while i < xs.len()
                invariant
                    xs@.len() == ys@.len(),
                    i <= xs@.len(),
                    forall|j: int| 0 <= j < i ==> xs@[j]@ == ys@[j]@,
                decreases xs@.len() - i,
            {
                proof {
                    assert(decreases_to!(*a => *xs));
                    assert(decreases_to!(*xs => xs@));
                    assert(decreases_to!(xs@ => xs@[i as int]));
                }
                if !ty_eq(&xs[i], &ys[i]) {
                    assert(tys_view(xs@)[i as int] != tys_view(ys@)[i as int]);
                    return false;
                }
                i = i + 1;
            }
            assert(tys_view(xs@) =~= tys_view(ys@));
            true
        },
        _ => false,
    }
}

/// A deep copy of a term.
pub fn clone_term(t: &Term) -> (r: Term)
    ensures
        r@ == t@,
    decreases t,
{
    match t {
        Term::Var(n, ty) => Term::Var(n.clone(), clone_ty(ty)),
        Term::Const(n, ty) => Term::Const(n.clone(), clone_ty(ty)),
        Term::Comb(f, x) => Term::Comb(Box::new(clone_term(f)), Box::new(clone_term(x))),
        Term::Abs(v, b) => Term::Abs(Box::new(clone_term(v)), Box::new(clone_term(b))),
    }
}

/// Whether two terms are equal.
pub fn term_eq(a: &Term, b: &Term) -> (r: bool)
    ensures
        r == (a@ == b@),
    decreases a,
{
    match (a, b) {
        (Term::Var(x, tx), Term::Var(y, ty)) => str_eq(x.as_str(), y.as_str()) && ty_eq(tx, ty),
        (Term::Const(x, tx), Term::Const(y, ty)) => str_eq(x.as_str(), y.as_str()) && ty_eq(tx, ty),
        (Term::Comb(f1, x1), Term::Comb(f2, x2)) => term_eq(f1, f2) && term_eq(x1, x2),
        (Term::Abs(v1, b1), Term::Abs(v2, b2)) => term_eq(v1, v2) && term_eq(b1, b2),
        _ => false,
    }
}

/// Copy a slice of terms.
fn clone_terms(s: &[Term]) -> (r: Vec<Term>)
    ensures
        tms(r@) == tms(s@),
{
    let mut out: Vec<Term> = Vec::new();
    let mut i: usize = 0;
    while i < s.len()
        invariant
            i <= s@.len(),
            out@.len() == i,
            forall|j: int| 0 <= j < i ==> #[trigger] out@[j]@ == s@[j]@,
        decreases s@.len() - i,
    {
        out.push(clone_term(&s[i]));
        i = i + 1;
    }
    assert(tms(out@) =~= tms(s@));
    out
}

impl Clone for HolType {
    fn clone(&self) -> (r: Self)
        ensures
            r@ == self@,
    {
        clone_ty(self)
    }
}

impl Clone for Term {
    fn clone(&self) -> (r: Self)
        ensures
            r@ == self@,
    {
        clone_term(self)
    }
}

impl PartialEq for HolType {
    fn eq(&self, other: &Self) -> (r: bool) {
        ty_eq(self, other)
    }
}

impl vstd::std_specs::cmp::PartialEqSpecImpl for HolType {
    open spec fn obeys_eq_spec() -> bool {
        true
    }

    open spec fn eq_spec(&self, other: &HolType) -> bool {
        self@ == other@
    }
}

impl Eq for HolType {

}

impl PartialEq for Term {
    fn eq(&self, other: &Self) -> (r: bool) {
        term_eq(self, other)
    }
}

impl vstd::std_specs::cmp::PartialEqSpecImpl for Term {
    open spec fn obeys_eq_spec() -> bool {
        true
    }

    open spec fn eq_spec(&self, other: &Term) -> bool {
        self@ == other@
    }
}

impl Eq for Term {

}

// ---------------------------------------------------------------------------
// Constructors
// ---------------------------------------------------------------------------

impl HolType {
    /// A type variable named `name`.
    pub fn var(name: &str) -> (r: HolType)
        ensures
            r@ == SType::Tyvar(name@),
    {
        HolType::Tyvar(owned(name))
    }

    /// A type-operator application `name(args...)`.
    pub fn app(name: &str, args: Vec<HolType>) -> (r: HolType)
        ensures
            r@ == SType::Tyapp(name@, tys_view(args@)),
    {
        HolType::Tyapp(owned(name), args)
    }

    /// The function type `dom -> rng`.
    pub fn fun(dom: HolType, rng: HolType) -> (r: HolType)
        ensures
            r@ == fun_ty(dom@, rng@),
    {
        let mut args: Vec<HolType> = Vec::new();
        args.push(dom);
        args.push(rng);
        proof {
            lemma_tys_view_index(args@);
            assert(tys_view(args@) =~= seq![dom@, rng@]);
        }
        HolType::Tyapp(owned("fun"), args)
    }

    /// The `bool` type.
    pub fn boolean() -> (r: HolType)
        ensures
            r@ == bool_ty(),
    {
        let args: Vec<HolType> = Vec::new();
        proof {
            lemma_tys_view_index(args@);
            assert(tys_view(args@) =~= Seq::<SType>::empty());
        }
        HolType::Tyapp(owned("bool"), args)
    }
}

impl Term {
    /// A variable term.
    pub fn var(name: &str, ty: HolType) -> (r: Term)
        ensures
            r@ == STerm::Var(name@, ty@),
    {
        Term::Var(owned(name), ty)
    }

    /// A constant term.
    pub fn constant(name: &str, ty: HolType) -> (r: Term)
        ensures
            r@ == STerm::Const(name@, ty@),
    {
        Term::Const(owned(name), ty)
    }

    /// The application `f x`.
    pub fn comb(f: Term, x: Term) -> (r: Term)
        ensures
            r@ == STerm::Comb(Box::new(f@), Box::new(x@)),
    {
        Term::Comb(Box::new(f), Box::new(x))
    }

    /// The abstraction `\v. body`.
    pub fn abs(v: Term, body: Term) -> (r: Term)
        ensures
            r@ == STerm::Abs(Box::new(v@), Box::new(body@)),
    {
        Term::Abs(Box::new(v), Box::new(body))
    }

    /// The polymorphic equality constant `=` at operand type `ty`
    /// (type `ty -> ty -> bool`).
    pub fn eq_const(ty: HolType) -> (r: Term)
        ensures
            r@ == eq_const_spec(ty@),
    {
        let ty2 = clone_ty(&ty);
        Term::Const(owned("="), HolType::fun(ty, HolType::fun(ty2, HolType::boolean())))
    }
}

// ===========================================================================
// Sequents, instantiations, steps and proofs.
// ===========================================================================

/// A sequent: hypotheses (an alpha-equivalence set) entailing a conclusion.
#[derive(Debug)]
pub struct Sequent {
    /// The hypotheses, in derivation order.
    pub hyps: Vec<Term>,
    /// The conclusion.
    pub concl: Term,
}

/// The model of a sequent.
pub ghost struct SSequent {
    pub hyps: Seq<STerm>,
    pub concl: STerm,
}

impl View for Sequent {
    type V = SSequent;

    open spec fn view(&self) -> SSequent {
        SSequent { hyps: tms(self.hyps@), concl: self.concl@ }
    }
}

/// The models of a sequence of sequents.
pub open spec fn seqs(s: Seq<Sequent>) -> Seq<SSequent> {
    s.map_values(|x: Sequent| x@)
}

/// A term-for-variable instantiation entry (for `INST`).
#[derive(Debug)]
pub struct Instantiation {
    /// The variable to replace (must be a [`Term::Var`]).
    pub var: Term,
    /// The replacement term (must have the same type as `var`).
    pub term: Term,
}

/// The models of an instantiation list, as `(variable, replacement)` pairs.
pub open spec fn insts(s: Seq<Instantiation>) -> Seq<(STerm, STerm)> {
    s.map_values(|i: Instantiation| (i.var@, i.term@))
}

/// A type-for-type-variable instantiation entry (for `INST_TYPE`).
#[derive(Debug)]
pub struct TypeInstantiation {
    /// The type-variable name to replace.
    pub var: String,
    /// The replacement type.
    pub ty: HolType,
}

/// The models of a type instantiation list.
pub open spec fn tyinsts(s: Seq<TypeInstantiation>) -> Seq<(Seq<char>, SType)> {
    s.map_values(|i: TypeInstantiation| (i.var@, i.ty@))
}

/// One primitive-inference step. Premises are indices into the enclosing
/// [`Proof::steps`] list and must point to strictly earlier steps.
#[derive(Debug)]
#[allow(inconsistent_fields)]
pub enum Step {
    /// `REFL t`: `|- t = t`.
    Refl { term: Term },
    /// `MK_COMB (|- l1 = r1) (|- l2 = r2)`: `|- (l1 l2) = (r1 r2)`.
    MkComb { left: usize, right: usize },
    /// `ABS v (|- l = r)`: `|- (\v. l) = (\v. r)`, `v` not free in any hypothesis.
    Abs { var: Term, eq: usize },
    /// `BETA ((\v. bod) v)`: `|- (\v. bod) v = bod`.
    Beta { term: Term },
    /// `ASSUME p` (`p : bool`): `{p} |- p`.
    Assume { term: Term },
    /// `EQ_MP (|- l = r) (|- l')` with `l'` alpha-equal to `l`: `|- r`.
    EqMp { eq: usize, thm: usize },
    /// `DEDUCT_ANTISYM_RULE (A1 |- c1) (A2 |- c2)`:
    /// `(A1 - {c2}) u (A2 - {c1}) |- c1 = c2`.
    DeductAntisym { left: usize, right: usize },
    /// `INST theta (A |- c)`: capture-avoiding term substitution.
    Inst { subst: Vec<Instantiation>, thm: usize },
    /// `INST_TYPE theta (A |- c)`: capture-avoiding type substitution.
    InstType { subst: Vec<TypeInstantiation>, thm: usize },
}

/// The model of a step.
#[allow(inconsistent_fields)]
pub ghost enum SStep {
    Refl { term: STerm },
    MkComb { left: nat, right: nat },
    Abs { var: STerm, eq: nat },
    Beta { term: STerm },
    Assume { term: STerm },
    EqMp { eq: nat, thm: nat },
    DeductAntisym { left: nat, right: nat },
    Inst { subst: Seq<(STerm, STerm)>, thm: nat },
    InstType { subst: Seq<(Seq<char>, SType)>, thm: nat },
}

impl View for Step {
    type V = SStep;

    open spec fn view(&self) -> SStep {
        match self {
            Step::Refl { term } => SStep::Refl { term: term@ },
            Step::MkComb { left, right } => SStep::MkComb { left: *left as nat, right: *right as nat },
            Step::Abs { var, eq } => SStep::Abs { var: var@, eq: *eq as nat },
            Step::Beta { term } => SStep::Beta { term: term@ },
            Step::Assume { term } => SStep::Assume { term: term@ },
            Step::EqMp { eq, thm } => SStep::EqMp { eq: *eq as nat, thm: *thm as nat },
            Step::DeductAntisym { left, right } => SStep::DeductAntisym {
                left: *left as nat,
                right: *right as nat,
            },
            Step::Inst { subst, thm } => SStep::Inst { subst: insts(subst@), thm: *thm as nat },
            Step::InstType { subst, thm } => SStep::InstType {
                subst: tyinsts(subst@),
                thm: *thm as nat,
            },
        }
    }
}

/// A proof log: an ordered list of steps; the last step's sequent is the
/// theorem the log proves.
#[derive(Debug)]
pub struct Proof {
    pub steps: Vec<Step>,
}

impl Proof {
    /// The models of the steps.
    pub open spec fn steps_view(&self) -> Seq<SStep> {
        self.steps@.map_values(|s: Step| s@)
    }

    /// Construct a proof from a list of steps.
    pub fn new(steps: Vec<Step>) -> (r: Proof)
        ensures
            r.steps@ == steps@,
    {
        Proof { steps }
    }
}

/// A checker rejection: an invalid or ill-formed proof step.
#[derive(Debug, Clone, PartialEq, Eq)]
pub struct CheckError(pub String);

impl CheckError {
    fn new(msg: &str) -> (r: CheckError)
        ensures
            r.0@ == msg@,
    {
        CheckError(owned(msg))
    }

    /// The human-readable rejection message.
    pub fn message(&self) -> (r: String)
        ensures
            r@ == "proof-log check failed: "@ + self.0@,
    {
        let mut s = String::new();
        s.append("proof-log check failed: ");
        s.append(self.0.as_str());
        s
    }
}

// ===========================================================================
// Term utilities, specified from first principles.
// ===========================================================================

/// The type of a term (`type_of`); `None` for an ill-formed term.
pub open spec fn type_of_spec(tm: STerm) -> Option<SType>
    decreases tm,
{
    match tm {
        STerm::Var(_, ty) => Some(ty),
        STerm::Const(_, ty) => Some(ty),
        STerm::Comb(s, _) => match type_of_spec(*s) {
            Some(SType::Tyapp(name, args)) => if name == "fun"@ && args.len() == 2 {
                Some(args[1])
            } else {
                None
            },
            _ => None,
        },
        STerm::Abs(v, body) => match *v {
            STerm::Var(_, ty) => match type_of_spec(*body) {
                Some(bt) => Some(fun_ty(ty, bt)),
                None => None,
            },
            _ => None,
        },
    }
}

/// `l = r` at the operands' shared type (`safe_mk_eq`).
pub open spec fn mk_eq_spec(l: STerm, r: STerm) -> Option<STerm> {
    match (type_of_spec(l), type_of_spec(r)) {
        (Some(lt), Some(rt)) => if lt == rt {
            Some(
                STerm::Comb(
                    Box::new(STerm::Comb(Box::new(eq_const_spec(lt)), Box::new(l))),
                    Box::new(r),
                ),
            )
        } else {
            None
        },
        _ => None,
    }
}

/// The two sides of an equation `l = r`.
pub open spec fn dest_eq_spec(tm: STerm) -> Option<(STerm, STerm)> {
    match tm {
        STerm::Comb(f, r) => match *f {
            STerm::Comb(op, l) => match *op {
                STerm::Const(name, _) => if name == "="@ {
                    Some((*l, *r))
                } else {
                    None
                },
                _ => None,
            },
            _ => None,
        },
        _ => None,
    }
}

/// Whether `v` occurs free in `tm` (`vfree_in`).
pub open spec fn vfree_in_spec(v: STerm, tm: STerm) -> bool
    decreases tm,
{
    match tm {
        STerm::Abs(bv, body) => v != *bv && vfree_in_spec(v, *body),
        STerm::Comb(s, t) => vfree_in_spec(v, *s) || vfree_in_spec(v, *t),
        _ => v == tm,
    }
}

/// `out` extended by the elements of `xs` it does not already hold, in order.
pub open spec fn add_new(out: Seq<STerm>, xs: Seq<STerm>) -> Seq<STerm>
    decreases xs.len(),
{
    if xs.len() == 0 {
        out
    } else if out.contains(xs[0]) {
        add_new(out, xs.drop_first())
    } else {
        add_new(out.push(xs[0]), xs.drop_first())
    }
}

/// `xs` without the elements equal to `v`.
pub open spec fn remove_eq(xs: Seq<STerm>, v: STerm) -> Seq<STerm>
    decreases xs.len(),
{
    if xs.len() == 0 {
        Seq::empty()
    } else if xs[0] == v {
        remove_eq(xs.drop_first(), v)
    } else {
        seq![xs[0]] + remove_eq(xs.drop_first(), v)
    }
}

/// The free variables of `tm`, in first-occurrence order (`frees`).
pub open spec fn frees_spec(tm: STerm) -> Seq<STerm>
    decreases tm,
{
    match tm {
        STerm::Var(_, _) => seq![tm],
        STerm::Const(_, _) => Seq::empty(),
        STerm::Comb(s, t) => add_new(frees_spec(*s), frees_spec(*t)),
        STerm::Abs(v, body) => remove_eq(frees_spec(*body), *v),
    }
}

/// How a pair of variables is bound in an alpha-environment, scanning from the
/// innermost binder outward: `Some(true)` bound together, `Some(false)` bound
/// at different depths, `None` both free.
pub open spec fn env_match(env: Seq<(STerm, STerm)>, s: STerm, t: STerm) -> Option<bool>
    decreases env.len(),
{
    if env.len() == 0 {
        None
    } else {
        let m1 = env.last().0 == s;
        let m2 = env.last().1 == t;
        if m1 && m2 {
            Some(true)
        } else if m1 || m2 {
            Some(false)
        } else {
            env_match(env.drop_last(), s, t)
        }
    }
}

/// Alpha-equivalence of `s` and `t` under the binder pairing `env`.
pub open spec fn alpha_spec(env: Seq<(STerm, STerm)>, s: STerm, t: STerm) -> bool
    decreases s,
{
    match (s, t) {
        (STerm::Var(_, _), STerm::Var(_, _)) => match env_match(env, s, t) {
            Some(b) => b,
            None => s == t,
        },
        (STerm::Const(_, _), STerm::Const(_, _)) => s == t,
        (STerm::Comb(f1, x1), STerm::Comb(f2, x2)) => alpha_spec(env, *f1, *f2) && alpha_spec(
            env,
            *x1,
            *x2,
        ),
        (STerm::Abs(v1, b1), STerm::Abs(v2, b2)) => match (*v1, *v2) {
            (STerm::Var(_, t1), STerm::Var(_, t2)) => t1 == t2 && alpha_spec(
                env.push((*v1, *v2)),
                *b1,
                *b2,
            ),
            _ => s == t,
        },
        _ => false,
    }
}

/// Top-level alpha-equivalence (`aconv`).
pub open spec fn aconv_spec(s: STerm, t: STerm) -> bool {
    alpha_spec(Seq::empty(), s, t)
}

/// Whether some element of `xs` is alpha-equivalent to `t`.
pub open spec fn has_aconv(xs: Seq<STerm>, t: STerm) -> bool {
    exists|i: int| 0 <= i < xs.len() && aconv_spec(#[trigger] xs[i], t)
}

/// `out` extended by the elements of `xs` not alpha-equivalent to anything it
/// already holds (`term_union`).
pub open spec fn union_spec(out: Seq<STerm>, xs: Seq<STerm>) -> Seq<STerm>
    decreases xs.len(),
{
    if xs.len() == 0 {
        out
    } else if has_aconv(out, xs[0]) {
        union_spec(out, xs.drop_first())
    } else {
        union_spec(out.push(xs[0]), xs.drop_first())
    }
}

/// `list` without the elements alpha-equivalent to `t` (`term_remove`).
pub open spec fn term_remove_spec(t: STerm, list: Seq<STerm>) -> Seq<STerm>
    decreases list.len(),
{
    if list.len() == 0 {
        Seq::empty()
    } else if aconv_spec(list[0], t) {
        term_remove_spec(t, list.drop_first())
    } else {
        seq![list[0]] + term_remove_spec(t, list.drop_first())
    }
}

/// Whether `v` occurs free in some term of `avoid`.
pub open spec fn free_in_any(avoid: Seq<STerm>, v: STerm) -> bool {
    exists|i: int| 0 <= i < avoid.len() && vfree_in_spec(v, #[trigger] avoid[i])
}

/// The longest variable name in `tm`.
pub open spec fn max_name(tm: STerm) -> nat
    decreases tm,
{
    match tm {
        STerm::Var(n, _) => n.len(),
        STerm::Const(_, _) => 0,
        STerm::Comb(s, t) => if max_name(*s) >= max_name(*t) {
            max_name(*s)
        } else {
            max_name(*t)
        },
        STerm::Abs(s, t) => if max_name(*s) >= max_name(*t) {
            max_name(*s)
        } else {
            max_name(*t)
        },
    }
}

/// The longest variable name in any term of `avoid`.
pub open spec fn max_names(avoid: Seq<STerm>) -> nat
    decreases avoid.len(),
{
    if avoid.len() == 0 {
        0
    } else if max_name(avoid.last()) >= max_names(avoid.drop_last()) {
        max_name(avoid.last())
    } else {
        max_names(avoid.drop_last())
    }
}

/// The name length of a variable (zero for anything else).
pub open spec fn var_len(v: STerm) -> nat {
    match v {
        STerm::Var(n, _) => n.len(),
        _ => 0,
    }
}

proof fn lemma_free_name_bounded(v: STerm, tm: STerm)
    requires
        v is Var,
        vfree_in_spec(v, tm),
    ensures
        var_len(v) <= max_name(tm),
    decreases tm,
{
    match tm {
        STerm::Abs(_, body) => lemma_free_name_bounded(v, *body),
        STerm::Comb(s, t) => {
            if vfree_in_spec(v, *s) {
                lemma_free_name_bounded(v, *s);
            } else {
                lemma_free_name_bounded(v, *t);
            }
        },
        _ => {},
    }
}

proof fn lemma_max_names_bound(avoid: Seq<STerm>, i: int)
    requires
        0 <= i < avoid.len(),
    ensures
        max_name(avoid[i]) <= max_names(avoid),
    decreases avoid.len(),
{
    if i < avoid.len() - 1 {
        lemma_max_names_bound(avoid.drop_last(), i);
    }
}

proof fn lemma_variant_measure(avoid: Seq<STerm>, v: STerm)
    requires
        v is Var,
        free_in_any(avoid, v),
    ensures
        var_len(v) <= max_names(avoid),
{
    let i = choose|i: int| 0 <= i < avoid.len() && vfree_in_spec(v, #[trigger] avoid[i]);
    lemma_free_name_bounded(v, avoid[i]);
    lemma_max_names_bound(avoid, i);
}

#[via_fn]
proof fn variant_decreases(avoid: Seq<STerm>, v: STerm) {
    if free_in_any(avoid, v) && v is Var {
        lemma_variant_measure(avoid, v);
    }
}

/// A variable derived from `v` by priming its name until it is not free in any
/// term of `avoid` (`variant`).
pub open spec fn variant_spec(avoid: Seq<STerm>, v: STerm) -> STerm
    decreases max_names(avoid) + 1 - var_len(v)
    via variant_decreases
{
    if !free_in_any(avoid, v) {
        v
    } else {
        match v {
            STerm::Var(n, ty) => variant_spec(avoid, STerm::Var(n.push('\''), ty)),
            _ => v,
        }
    }
}

/// The replacement `il` assigns to the variable `tm`, if any (first match).
pub open spec fn find_subst(il: Seq<(STerm, STerm)>, tm: STerm) -> Option<STerm>
    decreases il.len(),
{
    if il.len() == 0 {
        None
    } else if il[0].0 == tm {
        Some(il[0].1)
    } else {
        find_subst(il.drop_first(), tm)
    }
}

/// `il` without the entries targeting `v`.
pub open spec fn drop_target(il: Seq<(STerm, STerm)>, v: STerm) -> Seq<(STerm, STerm)>
    decreases il.len(),
{
    if il.len() == 0 {
        Seq::empty()
    } else if il[0].0 == v {
        drop_target(il.drop_first(), v)
    } else {
        seq![il[0]] + drop_target(il.drop_first(), v)
    }
}

/// Whether some entry would drag a term with `v` free under the binder `v`.
pub open spec fn captures(il: Seq<(STerm, STerm)>, v: STerm, body: STerm) -> bool {
    exists|i: int|
        0 <= i < il.len() && vfree_in_spec(v, (#[trigger] il[i]).1) && vfree_in_spec(il[i].0, body)
}

/// Capture-avoiding substitution of terms for free variables (`vsubst`).
pub open spec fn vsubst_rec_spec(il: Seq<(STerm, STerm)>, tm: STerm) -> STerm
    decreases tm,
{
    match tm {
        STerm::Var(_, _) => match find_subst(il, tm) {
            Some(t) => t,
            None => tm,
        },
        STerm::Const(_, _) => tm,
        STerm::Comb(s, t) => STerm::Comb(
            Box::new(vsubst_rec_spec(il, *s)),
            Box::new(vsubst_rec_spec(il, *t)),
        ),
        STerm::Abs(v, body) => {
            let il2 = drop_target(il, *v);
            if il2.len() == 0 {
                tm
            } else {
                let body2 = vsubst_rec_spec(il2, *body);
                if captures(il2, *v, *body) {
                    let fresh = variant_spec(seq![body2], *v);
                    STerm::Abs(Box::new(fresh), Box::new(vsubst_rec_spec(il2.push((*v, fresh)), *body)))
                } else {
                    STerm::Abs(v, Box::new(body2))
                }
            }
        },
    }
}

/// A well-formed `INST` entry: a variable replaced by a term of its type.
pub open spec fn inst_entry_ok(p: (STerm, STerm)) -> bool {
    match p.0 {
        STerm::Var(_, vty) => type_of_spec(p.1) == Some(vty),
        _ => false,
    }
}

/// `INST`: `None` when an entry is ill-formed, else the substitution.
pub open spec fn vsubst_spec(il: Seq<(STerm, STerm)>, tm: STerm) -> Option<STerm> {
    if forall|i: int| 0 <= i < il.len() ==> inst_entry_ok(#[trigger] il[i]) {
        Some(vsubst_rec_spec(il, tm))
    } else {
        None
    }
}

// ---------------------------------------------------------------------------
// Type instantiation
// ---------------------------------------------------------------------------

/// The replacement `tyin` assigns to the type variable `n` (first match).
pub open spec fn find_ty(tyin: Seq<(Seq<char>, SType)>, n: Seq<char>) -> Option<SType>
    decreases tyin.len(),
{
    if tyin.len() == 0 {
        None
    } else if tyin[0].0 == n {
        Some(tyin[0].1)
    } else {
        find_ty(tyin.drop_first(), n)
    }
}

/// Substitute types for type variables inside a type (`type_subst`).
pub open spec fn type_subst_spec(tyin: Seq<(Seq<char>, SType)>, ty: SType) -> SType
    decreases ty,
{
    match ty {
        SType::Tyvar(n) => match find_ty(tyin, n) {
            Some(t) => t,
            None => ty,
        },
        SType::Tyapp(n, args) => SType::Tyapp(n, tys_subst_spec(tyin, args)),
    }
}

/// [`type_subst_spec`] over a sequence of types.
pub open spec fn tys_subst_spec(tyin: Seq<(Seq<char>, SType)>, args: Seq<SType>) -> Seq<SType>
    decreases args,
{
    if args.len() == 0 {
        Seq::empty()
    } else {
        seq![type_subst_spec(tyin, args[0])] + tys_subst_spec(tyin, args.subrange(1, args.len() as int))
    }
}

proof fn lemma_tys_subst_index(tyin: Seq<(Seq<char>, SType)>, a: Seq<SType>)
    ensures
        tys_subst_spec(tyin, a).len() == a.len(),
        forall|i: int| 0 <= i < a.len() ==> #[trigger] tys_subst_spec(tyin, a)[i] == type_subst_spec(tyin, a[i]),
    decreases a.len(),
{
    if a.len() > 0 {
        lemma_tys_subst_index(tyin, a.subrange(1, a.len() as int));
        assert forall|i: int| 0 <= i < a.len() implies #[trigger] tys_subst_spec(tyin, a)[i]
            == type_subst_spec(tyin, a[i]) by {
            if i > 0 {
                assert(a.subrange(1, a.len() as int)[i - 1] == a[i]);
            }
        }
    }
}

/// The number of nodes of a term.
pub open spec fn size(tm: STerm) -> nat
    decreases tm,
{
    match tm {
        STerm::Var(_, _) => 1,
        STerm::Const(_, _) => 1,
        STerm::Comb(a, b) => 1 + size(*a) + size(*b),
        STerm::Abs(a, b) => 1 + size(*a) + size(*b),
    }
}

/// The original binder whose instantiated image is `tm2` (innermost first).
pub open spec fn rev_find(env: Seq<(STerm, STerm)>, tm2: STerm) -> Option<STerm>
    decreases env.len(),
{
    if env.len() == 0 {
        None
    } else if env[0].1 == tm2 {
        Some(env[0].0)
    } else {
        rev_find(env.drop_first(), tm2)
    }
}

/// The type-instantiated image of a free variable.
pub open spec fn inst_free(tyin: Seq<(Seq<char>, SType)>, f: STerm) -> STerm {
    match f {
        STerm::Var(n, ty) => STerm::Var(n, type_subst_spec(tyin, ty)),
        STerm::Const(n, ty) => STerm::Const(n, type_subst_spec(tyin, ty)),
        _ => f,
    }
}

/// Every entry that targets a variable replaces it by a variable.
pub open spec fn renaming(il: Seq<(STerm, STerm)>) -> bool {
    forall|i: int| 0 <= i < il.len() && (#[trigger] il[i]).0 is Var ==> il[i].1 is Var
}

proof fn lemma_variant_shape(avoid: Seq<STerm>, v: STerm)
    ensures
        v is Var ==> variant_spec(avoid, v) is Var,
        !(v is Var) ==> variant_spec(avoid, v) == v,
    decreases max_names(avoid) + 1 - var_len(v),
{
    if free_in_any(avoid, v) {
        if let STerm::Var(n, ty) = v {
            lemma_variant_measure(avoid, v);
            lemma_variant_shape(avoid, STerm::Var(n.push('\''), ty));
        }
    }
}

proof fn lemma_find_subst_entry(il: Seq<(STerm, STerm)>, tm: STerm)
    ensures
        find_subst(il, tm) matches Some(t) ==> exists|i: int|
            0 <= i < il.len() && (#[trigger] il[i]).0 == tm && il[i].1 == t,
    decreases il.len(),
{
    if il.len() > 0 && il[0].0 != tm {
        lemma_find_subst_entry(il.drop_first(), tm);
        if let Some(t) = find_subst(il, tm) {
            let i = choose|i: int|
                0 <= i < il.drop_first().len() && (#[trigger] il.drop_first()[i]).0 == tm
                    && il.drop_first()[i].1 == t;
            assert(il[i + 1] == il.drop_first()[i]);
        }
    }
}

proof fn lemma_drop_target_renaming(il: Seq<(STerm, STerm)>, v: STerm)
    requires
        renaming(il),
    ensures
        renaming(drop_target(il, v)),
    decreases il.len(),
{
    if il.len() > 0 {
        assert(renaming(il.drop_first())) by {
            assert forall|i: int| 0 <= i < il.drop_first().len() && (#[trigger] il.drop_first()[i]).0 is Var
                implies il.drop_first()[i].1 is Var by {
                assert(il.drop_first()[i] == il[i + 1]);
            }
        }
        lemma_drop_target_renaming(il.drop_first(), v);
        if il[0].0 != v {
            let d = drop_target(il, v);
            let rest = drop_target(il.drop_first(), v);
            assert forall|i: int| 0 <= i < d.len() && (#[trigger] d[i]).0 is Var implies d[i].1 is Var by {
                if i > 0 {
                    assert(d[i] == rest[i - 1]);
                }
            }
        }
    }
}

proof fn lemma_renaming_preserves_size(il: Seq<(STerm, STerm)>, tm: STerm)
    requires
        renaming(il),
    ensures
        size(vsubst_rec_spec(il, tm)) == size(tm),
    decreases tm,
{
    match tm {
        STerm::Var(_, _) => {
            lemma_find_subst_entry(il, tm);
            if let Some(t) = find_subst(il, tm) {
                let i = choose|i: int| 0 <= i < il.len() && (#[trigger] il[i]).0 == tm && il[i].1 == t;
                assert(il[i].0 is Var);
                assert(il[i].1 is Var);
                assert(size(t) == 1);
                assert(vsubst_rec_spec(il, tm) == t);
            } else {
                assert(vsubst_rec_spec(il, tm) == tm);
            }
            assert(size(tm) == 1);
        },
        STerm::Const(_, _) => {},
        STerm::Comb(s, t) => {
            lemma_renaming_preserves_size(il, *s);
            lemma_renaming_preserves_size(il, *t);
        },
        STerm::Abs(v, body) => {
            let il2 = drop_target(il, *v);
            lemma_drop_target_renaming(il, *v);
            if il2.len() != 0 {
                lemma_renaming_preserves_size(il2, *body);
                let body2 = vsubst_rec_spec(il2, *body);
                if captures(il2, *v, *body) {
                    let fresh = variant_spec(seq![body2], *v);
                    lemma_variant_shape(seq![body2], *v);
                    let il3 = il2.push((*v, fresh));
                    assert(renaming(il3)) by {
                        assert forall|i: int| 0 <= i < il3.len() && (#[trigger] il3[i]).0 is Var
                            implies il3[i].1 is Var by {
                            if i < il2.len() {
                                assert(il3[i] == il2[i]);
                            }
                        }
                    }
                    lemma_renaming_preserves_size(il3, *body);
                    assert(size(fresh) == size(*v));
                    assert(vsubst_rec_spec(il, tm) == STerm::Abs(Box::new(fresh), Box::new(vsubst_rec_spec(il3, *body))));
                } else {
                    assert(vsubst_rec_spec(il, tm) == STerm::Abs(v, Box::new(body2)));
                }
            } else {
                assert(vsubst_rec_spec(il, tm) == tm);
            }
        },
    }
}

/// The rename step of `INST_TYPE` keeps the body's size.
pub proof fn lemma_rename_size(y: STerm, z: STerm, t: STerm)
    requires
        z is Var,
    ensures
        size(vsubst_rec_spec(seq![(y, z)], t)) == size(t),
{
    assert(renaming(seq![(y, z)]));
    lemma_renaming_preserves_size(seq![(y, z)], t);
}

/// Capture-avoiding type instantiation (`inst`): `Err(w)` is HOL Light's
/// `Clash` at the instantiated variable `w`. When the freshly instantiated
/// binder captures a free variable, the binder is renamed to a variant fresh
/// for the instantiated free variables of the body and the abstraction is
/// instantiated again under the renamed binder.
pub open spec fn inst_spec(env: Seq<(STerm, STerm)>, tyin: Seq<(Seq<char>, SType)>, tm: STerm) -> Result<STerm, STerm>
    decreases size(tm),
{
    match tm {
        STerm::Var(n, ty) => {
            let tm2 = STerm::Var(n, type_subst_spec(tyin, ty));
            let looked = match rev_find(env, tm2) {
                Some(a) => a,
                None => tm,
            };
            if looked == tm {
                Ok(tm2)
            } else {
                Err(tm2)
            }
        },
        STerm::Const(n, ty) => Ok(STerm::Const(n, type_subst_spec(tyin, ty))),
        STerm::Comb(f, x) => match inst_spec(env, tyin, *f) {
            Err(w) => Err(w),
            Ok(f2) => match inst_spec(env, tyin, *x) {
                Err(w) => Err(w),
                Ok(x2) => Ok(STerm::Comb(Box::new(f2), Box::new(x2))),
            },
        },
        STerm::Abs(y, t) => match inst_spec(Seq::empty(), tyin, *y) {
            Err(w) => Err(w),
            Ok(y2) => match inst_spec(seq![(*y, y2)] + env, tyin, *t) {
                Ok(t2) => Ok(STerm::Abs(Box::new(y2), Box::new(t2))),
                Err(w) => if w != y2 {
                    Err(w)
                } else {
                    let ifrees = frees_spec(*t).map_values(|f: STerm| inst_free(tyin, f));
                    let fresh = variant_spec(ifrees, y2);
                    match (fresh, *y) {
                        (STerm::Var(nm, _), STerm::Var(_, oty)) => {
                            let z = STerm::Var(nm, oty);
                            let renamed = vsubst_rec_spec(seq![(*y, z)], *t);
                            let z2 = STerm::Var(nm, type_subst_spec(tyin, oty));
                            proof {
                                lemma_rename_size(*y, z, *t);
                            }
                            match inst_spec(seq![(z, z2)] + env, tyin, renamed) {
                                Ok(t2) => Ok(STerm::Abs(Box::new(z2), Box::new(t2))),
                                Err(w2) => Err(w2),
                            }
                        },
                        _ => Err(fresh),
                    }
                },
            },
        },
    }
}

/// `INST_TYPE` on a term: `None` when a capture cannot be resolved.
pub open spec fn inst_type_spec(tyin: Seq<(Seq<char>, SType)>, tm: STerm) -> Option<STerm> {
    match inst_spec(Seq::empty(), tyin, tm) {
        Ok(t) => Some(t),
        Err(_) => None,
    }
}

/// `INST_TYPE` on every hypothesis, in order.
pub open spec fn inst_all_spec(tyin: Seq<(Seq<char>, SType)>, hs: Seq<STerm>) -> Option<Seq<STerm>>
    decreases hs.len(),
{
    if hs.len() == 0 {
        Some(Seq::empty())
    } else {
        match (inst_type_spec(tyin, hs[0]), inst_all_spec(tyin, hs.drop_first())) {
            (Some(h), Some(rest)) => Some(seq![h] + rest),
            _ => None,
        }
    }
}

// ---------------------------------------------------------------------------
// The rules
// ---------------------------------------------------------------------------

/// A strictly-earlier premise sequent.
pub open spec fn premise_spec(results: Seq<SSequent>, idx: nat, cur: nat) -> Option<SSequent> {
    if idx >= cur {
        None
    } else if idx < results.len() {
        Some(results[idx as int])
    } else {
        None
    }
}

/// `MK_COMB` type agreement: the operator is a function whose domain is the
/// argument's type.
pub open spec fn fun_accepts(op_ty: SType, arg_ty: SType) -> bool {
    match op_ty {
        SType::Tyapp(name, args) => name == "fun"@ && args.len() == 2 && args[0] == arg_ty,
        _ => false,
    }
}

/// A sequent with the given hypotheses and (optional) conclusion.
pub open spec fn with_concl(hyps: Seq<STerm>, c: Option<STerm>) -> Option<SSequent> {
    match c {
        Some(concl) => Some(SSequent { hyps, concl }),
        None => None,
    }
}

/// `MK_COMB`.
pub open spec fn mk_comb_rule(s1: SSequent, s2: SSequent) -> Option<SSequent> {
    match (dest_eq_spec(s1.concl), dest_eq_spec(s2.concl)) {
        (Some((l1, r1)), Some((l2, r2))) => match (type_of_spec(r1), type_of_spec(r2)) {
            (Some(t1), Some(t2)) => if fun_accepts(t1, t2) {
                with_concl(
                    union_spec(s1.hyps, s2.hyps),
                    mk_eq_spec(
                        STerm::Comb(Box::new(l1), Box::new(l2)),
                        STerm::Comb(Box::new(r1), Box::new(r2)),
                    ),
                )
            } else {
                None
            },
            _ => None,
        },
        _ => None,
    }
}

/// Whether `v` is free in some hypothesis.
pub open spec fn free_in_hyps(v: STerm, hyps: Seq<STerm>) -> bool {
    exists|i: int| 0 <= i < hyps.len() && vfree_in_spec(v, #[trigger] hyps[i])
}

/// `ABS`.
pub open spec fn abs_rule(v: STerm, s: SSequent) -> Option<SSequent> {
    if !(v is Var) || free_in_hyps(v, s.hyps) {
        None
    } else {
        match dest_eq_spec(s.concl) {
            Some((l, r)) => with_concl(
                s.hyps,
                mk_eq_spec(STerm::Abs(Box::new(v), Box::new(l)), STerm::Abs(Box::new(v), Box::new(r))),
            ),
            None => None,
        }
    }
}

/// `BETA` (the trivial redex whose argument is the bound variable).
pub open spec fn beta_rule(term: STerm) -> Option<SSequent> {
    match term {
        STerm::Comb(f, arg) => match *f {
            STerm::Abs(v, bod) => if *arg == *v {
                with_concl(Seq::empty(), mk_eq_spec(term, *bod))
            } else {
                None
            },
            _ => None,
        },
        _ => None,
    }
}

/// `ASSUME`.
pub open spec fn assume_rule(term: STerm) -> Option<SSequent> {
    if type_of_spec(term) == Some(bool_ty()) {
        Some(SSequent { hyps: seq![term], concl: term })
    } else {
        None
    }
}

/// `EQ_MP`.
pub open spec fn eq_mp_rule(s_eq: SSequent, s_th: SSequent) -> Option<SSequent> {
    match dest_eq_spec(s_eq.concl) {
        Some((l, r)) => if aconv_spec(l, s_th.concl) {
            Some(SSequent { hyps: union_spec(s_eq.hyps, s_th.hyps), concl: r })
        } else {
            None
        },
        None => None,
    }
}

/// `DEDUCT_ANTISYM_RULE`.
pub open spec fn deduct_antisym_rule(s1: SSequent, s2: SSequent) -> Option<SSequent> {
    with_concl(
        union_spec(term_remove_spec(s2.concl, s1.hyps), term_remove_spec(s1.concl, s2.hyps)),
        mk_eq_spec(s1.concl, s2.concl),
    )
}

/// `INST`.
pub open spec fn inst_rule(il: Seq<(STerm, STerm)>, s: SSequent) -> Option<SSequent> {
    match vsubst_spec(il, s.concl) {
        Some(c) => Some(
            SSequent {
                hyps: union_spec(Seq::empty(), s.hyps.map_values(|h: STerm| vsubst_rec_spec(il, h))),
                concl: c,
            },
        ),
        None => None,
    }
}

/// `INST_TYPE`.
pub open spec fn inst_type_rule(tyin: Seq<(Seq<char>, SType)>, s: SSequent) -> Option<SSequent> {
    match (inst_type_spec(tyin, s.concl), inst_all_spec(tyin, s.hyps)) {
        (Some(c), Some(hs)) => Some(SSequent { hyps: union_spec(Seq::empty(), hs), concl: c }),
        _ => None,
    }
}

/// The sequent one step derives from the earlier results, or `None` when the
/// step is not a valid application of its rule.
pub open spec fn step_spec(step: SStep, results: Seq<SSequent>, cur: nat) -> Option<SSequent> {
    match step {
        SStep::Refl { term } => with_concl(Seq::empty(), mk_eq_spec(term, term)),
        SStep::MkComb { left, right } => match (
            premise_spec(results, left, cur),
            premise_spec(results, right, cur),
        ) {
            (Some(s1), Some(s2)) => mk_comb_rule(s1, s2),
            _ => None,
        },
        SStep::Abs { var, eq } => match premise_spec(results, eq, cur) {
            Some(s) => abs_rule(var, s),
            None => None,
        },
        SStep::Beta { term } => beta_rule(term),
        SStep::Assume { term } => assume_rule(term),
        SStep::EqMp { eq, thm } => match (premise_spec(results, eq, cur), premise_spec(results, thm, cur)) {
            (Some(s1), Some(s2)) => eq_mp_rule(s1, s2),
            _ => None,
        },
        SStep::DeductAntisym { left, right } => match (
            premise_spec(results, left, cur),
            premise_spec(results, right, cur),
        ) {
            (Some(s1), Some(s2)) => deduct_antisym_rule(s1, s2),
            _ => None,
        },
        SStep::Inst { subst, thm } => match premise_spec(results, thm, cur) {
            Some(s) => inst_rule(subst, s),
            None => None,
        },
        SStep::InstType { subst, thm } => match premise_spec(results, thm, cur) {
            Some(s) => inst_type_rule(subst, s),
            None => None,
        },
    }
}

/// The sequents derived by the first `n` steps, or `None` if one is invalid.
pub open spec fn results_upto(steps: Seq<SStep>, n: nat) -> Option<Seq<SSequent>>
    decreases n,
{
    if n == 0 {
        Some(Seq::empty())
    } else {
        match results_upto(steps, (n - 1) as nat) {
            None => None,
            Some(rs) => match step_spec(steps[n - 1], rs, (n - 1) as nat) {
                None => None,
                Some(s) => Some(rs.push(s)),
            },
        }
    }
}

/// The theorem a proof log proves: the last derived sequent, or `None` when
/// the log is empty or any step is invalid.
pub open spec fn check_spec(steps: Seq<SStep>) -> Option<SSequent> {
    if steps.len() == 0 {
        None
    } else {
        match results_upto(steps, steps.len()) {
            Some(rs) => Some(rs.last()),
            None => None,
        }
    }
}

// ===========================================================================
// Executable term utilities, each proved against its specification.
// ===========================================================================

/// The models of an environment of binder pairs.
pub open spec fn envs(e: Seq<(Term, Term)>) -> Seq<(STerm, STerm)> {
    e.map_values(|p: (Term, Term)| (p.0@, p.1@))
}

/// The type of a term (`type_of`). Fails on an ill-formed term.
pub fn type_of(tm: &Term) -> (r: Result<HolType, CheckError>)
    ensures
        match r {
            Ok(t) => type_of_spec(tm@) == Some(t@),
            Err(_) => type_of_spec(tm@) is None,
        },
    decreases tm,
{
    proof {
        reveal_with_fuel(tm_view, 2);
    }
    match tm {
        Term::Var(_, ty) => Ok(clone_ty(ty)),
        Term::Const(_, ty) => Ok(clone_ty(ty)),
        Term::Comb(s, _) => {
            let st = type_of(s)?;
            match &st {
                HolType::Tyapp(name, args) => {
                    proof {
                        lemma_tys_view_index(args@);
                    }
                    if str_eq(name.as_str(), "fun") && args.len() == 2 {
                        Ok(clone_ty(&args[1]))
                    } else {
                        Err(CheckError::new("type_of: operator does not have a function type"))
                    }
                },
                _ => Err(CheckError::new("type_of: operator does not have a function type")),
            }
        },
        Term::Abs(v, body) => match &**v {
            Term::Var(_, ty) => {
                let bt = type_of(body)?;
                Ok(HolType::fun(clone_ty(ty), bt))
            },
            _ => Err(CheckError::new("type_of: abstraction binder is not a variable")),
        },
    }
}

/// Build `l = r` at the operands' shared type (`safe_mk_eq`). Fails if the
/// sides have different types.
pub fn mk_eq(l: &Term, r: &Term) -> (res: Result<Term, CheckError>)
    ensures
        match res {
            Ok(t) => mk_eq_spec(l@, r@) == Some(t@),
            Err(_) => mk_eq_spec(l@, r@) is None,
        },
{
    let lty = type_of(l)?;
    let rty = type_of(r)?;
    if !ty_eq(&lty, &rty) {
        return Err(CheckError::new("mk_eq: type mismatch between sides"));
    }
    let eqc = Term::eq_const(lty);
    Ok(Term::comb(Term::comb(eqc, clone_term(l)), clone_term(r)))
}

/// Destructure an equation `l = r`, returning `(l, r)`.
pub fn dest_eq(tm: &Term) -> (res: Result<(&Term, &Term), CheckError>)
    ensures
        match res {
            Ok((l, r)) => dest_eq_spec(tm@) == Some((l@, r@)),
            Err(_) => dest_eq_spec(tm@) is None,
        },
{
    proof {
        reveal_with_fuel(tm_view, 3);
    }
    if let Term::Comb(f, r) = tm {
        if let Term::Comb(op, l) = &**f {
            if let Term::Const(name, _) = &**op {
                if str_eq(name.as_str(), "=") {
                    return Ok((&**l, &**r));
                }
            }
        }
    }
    Err(CheckError::new("expected an equation"))
}

/// Is variable `v` free in `tm`? (`vfree_in`.)
pub fn vfree_in(v: &Term, tm: &Term) -> (r: bool)
    ensures
        r == vfree_in_spec(v@, tm@),
    decreases tm,
{
    match tm {
        Term::Abs(bv, body) => !term_eq(v, bv) && vfree_in(v, body),
        Term::Comb(s, t) => vfree_in(v, s) || vfree_in(v, t),
        _ => term_eq(v, tm),
    }
}

/// Whether `xs` holds a term equal to `x`.
fn contains_term(xs: &Vec<Term>, x: &Term) -> (r: bool)
    ensures
        r == tms(xs@).contains(x@),
{
    let mut i: usize = 0;
    while i < xs.len()
        invariant
            i <= xs@.len(),
            forall|j: int| 0 <= j < i ==> xs@[j]@ != x@,
        decreases xs@.len() - i,
    {
        if term_eq(&xs[i], x) {
            assert(tms(xs@)[i as int] == x@);
            return true;
        }
        i = i + 1;
    }
    assert forall|j: int| 0 <= j < tms(xs@).len() implies tms(xs@)[j] != x@ by {
        assert(tms(xs@)[j] == xs@[j]@);
    }
    false
}

/// The free variables of `tm`, in first-occurrence order (`frees`).
pub fn frees(tm: &Term) -> (r: Vec<Term>)
    ensures
        tms(r@) == frees_spec(tm@),
    decreases tm,
{
    match tm {
        Term::Var(_, _) => {
            let mut out: Vec<Term> = Vec::new();
            out.push(clone_term(tm));
            assert(tms(out@) =~= seq![tm@]);
            out
        },
        Term::Const(_, _) => {
            let out: Vec<Term> = Vec::new();
            assert(tms(out@) =~= Seq::<STerm>::empty());
            out
        },
        Term::Comb(s, t) => {
            let mut out = frees(s);
            let ft = frees(t);
            let ghost xs = tms(ft@);
            let mut i: usize = 0;
            assert(xs.skip(0) == xs);
            while i < ft.len()
                invariant
                    i <= ft@.len(),
                    xs == tms(ft@),
                    add_new(frees_spec(s@), frees_spec(t@)) == add_new(tms(out@), xs.skip(i as int)),
                decreases ft@.len() - i,
            {
                assert(xs.skip(i as int).drop_first() == xs.skip(i + 1));
                assert(xs.skip(i as int)[0] == ft@[i as int]@);
                if !contains_term(&out, &ft[i]) {
                    let ghost before = tms(out@);
                    out.push(clone_term(&ft[i]));
                    assert(tms(out@) =~= before.push(ft@[i as int]@));
                }
                i = i + 1;
            }
            assert(xs.skip(ft@.len() as int) =~= Seq::<STerm>::empty());
            out
        },
        Term::Abs(v, body) => {
            let fb = frees(body);
            let ghost xs = tms(fb@);
            let mut out: Vec<Term> = Vec::new();
            let mut i: usize = 0;
            assert(xs.skip(0) == xs);
            assert(tms(out@) =~= Seq::<STerm>::empty());
            while i < fb.len()
                invariant
                    i <= fb@.len(),
                    xs == tms(fb@),
                    remove_eq(xs, v@) == tms(out@) + remove_eq(xs.skip(i as int), v@),
                decreases fb@.len() - i,
            {
                assert(xs.skip(i as int).drop_first() == xs.skip(i + 1));
                assert(xs.skip(i as int)[0] == fb@[i as int]@);
                if !term_eq(&fb[i], v) {
                    let ghost before = tms(out@);
                    out.push(clone_term(&fb[i]));
                    assert(tms(out@) =~= before.push(fb@[i as int]@));
                    assert(before + (seq![fb@[i as int]@] + remove_eq(xs.skip(i + 1), v@)) =~= before.push(
                        fb@[i as int]@,
                    ) + remove_eq(xs.skip(i + 1), v@));
                }
                i = i + 1;
            }
            assert(xs.skip(fb@.len() as int) =~= Seq::<STerm>::empty());
            assert(tms(out@) + Seq::<STerm>::empty() == tms(out@));
            out
        },
    }
}

/// A deep copy of a binder pair.
fn clone_pair(p: &(Term, Term)) -> (r: (Term, Term))
    ensures
        r.0@ == p.0@,
        r.1@ == p.1@,
{
    (clone_term(&p.0), clone_term(&p.1))
}

/// Alpha-equivalence of two terms (`aconv` / `alphaorder = 0`). `env` pairs the
/// bound variables encountered so far (innermost last); it is restored on exit.
#[verifier::loop_isolation(false)]
pub fn alpha_eq(env: &mut Vec<(Term, Term)>, s: &Term, t: &Term) -> (r: bool)
    ensures
        r == alpha_spec(envs(old(env)@), s@, t@),
        final(env)@ == old(env)@,
    decreases s,
{
    proof {
        reveal_with_fuel(tm_view, 2);
    }
    match (s, t) {
        (Term::Var(_, _), Term::Var(_, _)) => {
            let ghost e = envs(env@);
            let mut i: usize = env.len();
            assert(e.take(e.len() as int) == e);
            while i > 0
                invariant
                    i <= env@.len(),
                    e == envs(env@),
                    env_match(e, s@, t@) == env_match(e.take(i as int), s@, t@),
                decreases i,
            {
                let m1 = term_eq(&env[i - 1].0, s);
                let m2 = term_eq(&env[i - 1].1, t);
                assert(e.take(i as int).last() == (env@[i - 1].0@, env@[i - 1].1@));
                if m1 && m2 {
                    return true;
                }
                if m1 || m2 {
                    return false;
                }
                assert(e.take(i as int).drop_last() == e.take(i - 1));
                i = i - 1;
            }
            term_eq(s, t)
        },
        (Term::Const(_, _), Term::Const(_, _)) => term_eq(s, t),
        (Term::Comb(f1, x1), Term::Comb(f2, x2)) => alpha_eq(env, f1, f2) && alpha_eq(env, x1, x2),
        (Term::Abs(v1, b1), Term::Abs(v2, b2)) => {
            match (&**v1, &**v2) {
                (Term::Var(_, t1), Term::Var(_, t2)) => {
                    if !ty_eq(t1, t2) {
                        return false;
                    }
                },
                _ => return term_eq(s, t),
            }
            let ghost e0 = env@;
            env.push((clone_term(v1), clone_term(v2)));
            assert(envs(env@) =~= envs(e0).push((v1@, v2@)));
            let r = alpha_eq(env, b1, b2);
            env.pop();
            assert(env@ =~= e0);
            r
        },
        _ => false,
    }
}

/// Top-level alpha-equivalence.
pub fn aconv(s: &Term, t: &Term) -> (r: bool)
    ensures
        r == aconv_spec(s@, t@),
{
    let mut env: Vec<(Term, Term)> = Vec::new();
    assert(envs(env@) =~= Seq::<(STerm, STerm)>::empty());
    alpha_eq(&mut env, s, t)
}

/// Whether some element of `xs` is alpha-equivalent to `t`.
fn any_aconv(xs: &Vec<Term>, t: &Term) -> (r: bool)
    ensures
        r == has_aconv(tms(xs@), t@),
{
    let mut i: usize = 0;
    while i < xs.len()
        invariant
            i <= xs@.len(),
            forall|j: int| 0 <= j < i ==> !aconv_spec(#[trigger] tms(xs@)[j], t@),
        decreases xs@.len() - i,
    {
        if aconv(&xs[i], t) {
            assert(aconv_spec(tms(xs@)[i as int], t@));
            return true;
        }
        i = i + 1;
    }
    false
}

/// Union of two hypothesis lists up to alpha-equivalence (`term_union`).
pub fn term_union(a: &[Term], b: &[Term]) -> (r: Vec<Term>)
    ensures
        tms(r@) == union_spec(tms(a@), tms(b@)),
{
    let mut out = clone_terms(a);
    let ghost xs = tms(b@);
    let mut i: usize = 0;
    assert(xs.skip(0) == xs);
    while i < b.len()
        invariant
            i <= b@.len(),
            xs == tms(b@),
            union_spec(tms(a@), xs) == union_spec(tms(out@), xs.skip(i as int)),
        decreases b@.len() - i,
    {
        assert(xs.skip(i as int).drop_first() == xs.skip(i + 1));
        assert(xs.skip(i as int)[0] == b@[i as int]@);
        if !any_aconv(&out, &b[i]) {
            let ghost before = tms(out@);
            out.push(clone_term(&b[i]));
            assert(tms(out@) =~= before.push(b@[i as int]@));
        }
        i = i + 1;
    }
    assert(xs.skip(b@.len() as int) =~= Seq::<STerm>::empty());
    out
}

/// Remove every alpha-equivalent occurrence of `t` from `list` (`term_remove`).
pub fn term_remove(t: &Term, list: &[Term]) -> (r: Vec<Term>)
    ensures
        tms(r@) == term_remove_spec(t@, tms(list@)),
{
    let ghost xs = tms(list@);
    let mut out: Vec<Term> = Vec::new();
    let mut i: usize = 0;
    assert(xs.skip(0) == xs);
    assert(tms(out@) =~= Seq::<STerm>::empty());
    while i < list.len()
        invariant
            i <= list@.len(),
            xs == tms(list@),
            term_remove_spec(t@, xs) == tms(out@) + term_remove_spec(t@, xs.skip(i as int)),
        decreases list@.len() - i,
    {
        assert(xs.skip(i as int).drop_first() == xs.skip(i + 1));
        assert(xs.skip(i as int)[0] == list@[i as int]@);
        if !aconv(&list[i], t) {
            let ghost before = tms(out@);
            out.push(clone_term(&list[i]));
            assert(tms(out@) =~= before.push(list@[i as int]@));
            assert(before + (seq![list@[i as int]@] + term_remove_spec(t@, xs.skip(i + 1))) =~= before.push(
                list@[i as int]@,
            ) + term_remove_spec(t@, xs.skip(i + 1)));
        }
        i = i + 1;
    }
    assert(xs.skip(list@.len() as int) =~= Seq::<STerm>::empty());
    assert(tms(out@) + Seq::<STerm>::empty() == tms(out@));
    out
}

/// De-duplicate a hypothesis list up to alpha-equivalence, keeping order.
pub fn dedup_conv(list: Vec<Term>) -> (r: Vec<Term>)
    ensures
        tms(r@) == union_spec(Seq::empty(), tms(list@)),
{
    let empty: Vec<Term> = Vec::new();
    assert(tms(empty@) =~= Seq::<STerm>::empty());
    term_union(empty.as_slice(), list.as_slice())
}

/// Whether `v` is free in some term of `avoid`.
fn any_free(avoid: &[Term], v: &Term) -> (r: bool)
    ensures
        r == free_in_any(tms(avoid@), v@),
{
    let mut i: usize = 0;
    while i < avoid.len()
        invariant
            i <= avoid@.len(),
            forall|j: int| 0 <= j < i ==> !vfree_in_spec(v@, #[trigger] tms(avoid@)[j]),
        decreases avoid@.len() - i,
    {
        if vfree_in(v, &avoid[i]) {
            assert(vfree_in_spec(v@, tms(avoid@)[i as int]));
            return true;
        }
        i = i + 1;
    }
    false
}

/// A fresh variable derived from `v` by adding primes to its name until it is
/// not free in any term of `avoid` (`variant`).
pub fn variant(avoid: &[Term], v: &Term) -> (r: Term)
    ensures
        r@ == variant_spec(tms(avoid@), v@),
{
    let ghost a = tms(avoid@);
    let mut cur = clone_term(v);
    loop
        invariant
            a == tms(avoid@),
            variant_spec(a, v@) == variant_spec(a, cur@),
        decreases max_names(a) + 1 - var_len(cur@),
    {
        if !any_free(avoid, &cur) {
            return cur;
        }
        let next = match &cur {
            Term::Var(n, ty) => {
                let mut n2 = n.clone();
                push_char(&mut n2, '\'');
                Term::Var(n2, clone_ty(ty))
            },
            _ => {
                return cur;
            },
        };
        proof {
            lemma_variant_measure(a, cur@);
        }
        cur = next;
    }
}

/// A deep copy of an instantiation entry.
fn clone_inst(i: &Instantiation) -> (r: Instantiation)
    ensures
        r.var@ == i.var@,
        r.term@ == i.term@,
{
    Instantiation { var: clone_term(&i.var), term: clone_term(&i.term) }
}

/// The recursive core of [`vsubst`]. On entering an abstraction it drops any
/// substitution targeting the bound variable, and if a surviving substitution
/// would drag a term with the bound variable free into its scope, it renames
/// the binder to a fresh [`variant`] first, so no free variable is captured.
#[verifier::loop_isolation(false)]
pub fn vsubst_rec(ilist: &[Instantiation], tm: &Term) -> (r: Term)
    ensures
        r@ == vsubst_rec_spec(insts(ilist@), tm@),
    decreases tm,
{
    proof {
        reveal_with_fuel(tm_view, 2);
    }
    let ghost il = insts(ilist@);
    match tm {
        Term::Var(_, _) => {
            let mut i: usize = 0;
            assert(il.skip(0) == il);
            while i < ilist.len()
                invariant
                    i <= ilist@.len(),
                    il == insts(ilist@),
                    find_subst(il, tm@) == find_subst(il.skip(i as int), tm@),
                decreases ilist@.len() - i,
            {
                assert(il.skip(i as int).drop_first() == il.skip(i + 1));
                assert(il.skip(i as int)[0] == (ilist@[i as int].var@, ilist@[i as int].term@));
                if term_eq(&ilist[i].var, tm) {
                    return clone_term(&ilist[i].term);
                }
                i = i + 1;
            }
            clone_term(tm)
        },
        Term::Const(_, _) => clone_term(tm),
        Term::Comb(s, t) => Term::comb(vsubst_rec(ilist, s), vsubst_rec(ilist, t)),
        Term::Abs(v, body) => {
            // Substitutions targeting the bound variable no longer apply inside.
            let mut ilist2: Vec<Instantiation> = Vec::new();
            let mut i: usize = 0;
            assert(il.skip(0) == il);
            assert(insts(ilist2@) =~= Seq::<(STerm, STerm)>::empty());
            while i < ilist.len()
                invariant
                    i <= ilist@.len(),
                    il == insts(ilist@),
                    drop_target(il, v@) == insts(ilist2@) + drop_target(il.skip(i as int), v@),
                decreases ilist@.len() - i,
            {
                assert(il.skip(i as int).drop_first() == il.skip(i + 1));
                assert(il.skip(i as int)[0] == (ilist@[i as int].var@, ilist@[i as int].term@));
                if !term_eq(&ilist[i].var, v) {
                    let ghost before = insts(ilist2@);
                    ilist2.push(clone_inst(&ilist[i]));
                    assert(insts(ilist2@) =~= before.push((ilist@[i as int].var@, ilist@[i as int].term@)));
                    assert(before + (seq![(ilist@[i as int].var@, ilist@[i as int].term@)] + drop_target(
                        il.skip(i + 1),
                        v@,
                    )) =~= before.push((ilist@[i as int].var@, ilist@[i as int].term@)) + drop_target(
                        il.skip(i + 1),
                        v@,
                    ));
                }
                i = i + 1;
            }
            assert(il.skip(ilist@.len() as int) =~= Seq::<(STerm, STerm)>::empty());
            assert(insts(ilist2@) + Seq::<(STerm, STerm)>::empty() == insts(ilist2@));
            let ghost il2 = insts(ilist2@);
            if ilist2.len() == 0 {
                return clone_term(tm);
            }
            let body2 = vsubst_rec(ilist2.as_slice(), body);
            // Capture: some firing substitution replaces a variable free in the
            // body with a term in which the bound variable is free.
            let mut needs_rename = false;
            let mut j: usize = 0;
            while j < ilist2.len()
                invariant
                    j <= ilist2@.len(),
                    il2 == insts(ilist2@),
                    needs_rename == exists|k: int|
                        0 <= k < j && vfree_in_spec(v@, (#[trigger] il2[k]).1) && vfree_in_spec(
                            il2[k].0,
                            body@,
                        ),
                decreases ilist2@.len() - j,
            {
                assert(il2[j as int] == (ilist2@[j as int].var@, ilist2@[j as int].term@));
                if vfree_in(v, &ilist2[j].term) && vfree_in(&ilist2[j].var, body) {
                    needs_rename = true;
                }
                j = j + 1;
            }
            if needs_rename {
                let mut avoid: Vec<Term> = Vec::new();
                avoid.push(body2);
                let ghost b2 = avoid@[0]@;
                assert(tms(avoid@) =~= seq![b2]);
                let fresh = variant(avoid.as_slice(), v);
                let mut ilist3 = ilist2;
                ilist3.push(Instantiation { var: clone_term(v), term: clone_term(&fresh) });
                assert(insts(ilist3@) =~= il2.push((v@, fresh@)));
                Term::Abs(Box::new(fresh), Box::new(vsubst_rec(ilist3.as_slice(), body)))
            } else {
                Term::Abs(Box::new(clone_term(v)), Box::new(body2))
            }
        },
    }
}

/// Capture-avoiding substitution of terms for free variables (`vsubst`). Fails
/// if any target is not a variable or a replacement's type differs from it.
pub fn vsubst(theta: &[Instantiation], tm: &Term) -> (r: Result<Term, CheckError>)
    ensures
        match r {
            Ok(t) => vsubst_spec(insts(theta@), tm@) == Some(t@),
            Err(_) => vsubst_spec(insts(theta@), tm@) is None,
        },
{
    let ghost il = insts(theta@);
    let mut i: usize = 0;
    while i < theta.len()
        invariant
            i <= theta@.len(),
            il == insts(theta@),
            forall|j: int| 0 <= j < i ==> inst_entry_ok(#[trigger] il[j]),
        decreases theta@.len() - i,
    {
        assert(il[i as int] == (theta@[i as int].var@, theta@[i as int].term@));
        proof {
            reveal_with_fuel(tm_view, 1);
        }
        match &theta[i].var {
            Term::Var(_, vty) => {
                let tty = match type_of(&theta[i].term) {
                    Ok(t) => t,
                    Err(e) => {
                        assert(!inst_entry_ok(il[i as int]));
                        return Err(e);
                    },
                };
                if !ty_eq(vty, &tty) {
                    assert(!inst_entry_ok(il[i as int]));
                    return Err(CheckError::new("INST: replacement type does not match variable type"));
                }
            },
            _ => {
                assert(!inst_entry_ok(il[i as int]));
                return Err(CheckError::new("INST: substitution target is not a variable"));
            },
        }
        i = i + 1;
    }
    Ok(vsubst_rec(theta, tm))
}

/// Substitute types for type variables inside a type (`type_subst`).
#[verifier::loop_isolation(false)]
pub fn type_subst(tyin: &[TypeInstantiation], ty: &HolType) -> (r: HolType)
    ensures
        r@ == type_subst_spec(tyinsts(tyin@), ty@),
    decreases ty,
{
    let ghost ti = tyinsts(tyin@);
    match ty {
        HolType::Tyvar(n) => {
            let mut i: usize = 0;
            assert(ti.skip(0) == ti);
            while i < tyin.len()
                invariant
                    i <= tyin@.len(),
                    ti == tyinsts(tyin@),
                    find_ty(ti, n@) == find_ty(ti.skip(i as int), n@),
                decreases tyin@.len() - i,
            {
                assert(ti.skip(i as int).drop_first() == ti.skip(i + 1));
                assert(ti.skip(i as int)[0] == (tyin@[i as int].var@, tyin@[i as int].ty@));
                if str_eq(tyin[i].var.as_str(), n.as_str()) {
                    return clone_ty(&tyin[i].ty);
                }
                i = i + 1;
            }
            clone_ty(ty)
        },
        HolType::Tyapp(n, args) => {
            let mut out: Vec<HolType> = Vec::new();
            let mut i: usize = 0;
            proof {
                lemma_tys_view_index(args@);
                lemma_tys_subst_index(ti, tys_view(args@));
            }
            while i < args.len()
                invariant
                    i <= args@.len(),
                    out@.len() == i,
                    forall|j: int| 0 <= j < i ==> #[trigger] out@[j]@ == type_subst_spec(ti, args@[j]@),
                decreases args@.len() - i,
            {
                proof {
                    assert(decreases_to!(*ty => *args));
                    assert(decreases_to!(*args => args@));
                    assert(decreases_to!(args@ => args@[i as int]));
                }
                out.push(type_subst(tyin, &args[i]));
                i = i + 1;
            }
            proof {
                lemma_tys_view_index(out@);
                assert(tys_view(out@) =~= tys_subst_spec(ti, tys_view(args@)));
            }
            HolType::Tyapp(n.clone(), out)
        },
    }
}

/// The type-instantiated image of a free variable.
fn inst_free_exec(tyin: &[TypeInstantiation], f: &Term) -> (r: Term)
    ensures
        r@ == inst_free(tyinsts(tyin@), f@),
{
    match f {
        Term::Var(n, ty) => Term::Var(n.clone(), type_subst(tyin, ty)),
        Term::Const(n, ty) => Term::Const(n.clone(), type_subst(tyin, ty)),
        _ => clone_term(f),
    }
}

/// `[(a, b)] ++ env`, copied.
fn cons_env(a: Term, b: Term, env: &[(Term, Term)]) -> (r: Vec<(Term, Term)>)
    ensures
        envs(r@) == seq![(a@, b@)] + envs(env@),
{
    let ghost pa = (a@, b@);
    let mut out: Vec<(Term, Term)> = Vec::new();
    out.push((a, b));
    let mut i: usize = 0;
    while i < env.len()
        invariant
            i <= env@.len(),
            envs(out@) == seq![pa] + envs(env@).take(i as int),
        decreases env@.len() - i,
    {
        let ghost before = envs(out@);
        out.push(clone_pair(&env[i]));
        assert(envs(out@) =~= before.push((env@[i as int].0@, env@[i as int].1@)));
        assert(envs(env@).take(i + 1) =~= envs(env@).take(i as int).push((env@[i as int].0@, env@[i as int].1@)));
        i = i + 1;
    }
    assert(envs(env@).take(env@.len() as int) =~= envs(env@));
    out
}

/// Capture-avoiding type instantiation over a term (`inst`). `Err(w)` is the
/// `Clash` signal: the instantiated variable `w` coincides with a different
/// binder's image. A clash at the binder just instantiated renames it to a
/// variant fresh for the instantiated free variables of the body.
#[verifier::loop_isolation(false)]
pub fn inst_rec(env: &[(Term, Term)], tyin: &[TypeInstantiation], tm: &Term) -> (r: Result<Term, Term>)
    ensures
        match r {
            Ok(t) => inst_spec(envs(env@), tyinsts(tyin@), tm@) == Ok::<STerm, STerm>(t@),
            Err(w) => inst_spec(envs(env@), tyinsts(tyin@), tm@) == Err::<STerm, STerm>(w@),
        },
    decreases size(tm@),
{
    proof {
        reveal_with_fuel(tm_view, 2);
    }
    let ghost e = envs(env@);
    let ghost ti = tyinsts(tyin@);
    match tm {
        Term::Var(n, ty) => {
            let tm2 = Term::Var(n.clone(), type_subst(tyin, ty));
            // rev_assocd tm2 env tm: the binder whose image is tm2, if any.
            let mut i: usize = 0;
            assert(e.skip(0) == e);
            while i < env.len()
                invariant
                    i <= env@.len(),
                    e == envs(env@),
                    rev_find(e, tm2@) == rev_find(e.skip(i as int), tm2@),
                decreases env@.len() - i,
            {
                assert(e.skip(i as int).drop_first() == e.skip(i + 1));
                assert(e.skip(i as int)[0] == (env@[i as int].0@, env@[i as int].1@));
                if term_eq(&env[i].1, &tm2) {
                    if term_eq(&env[i].0, tm) {
                        return Ok(tm2);
                    } else {
                        return Err(tm2);
                    }
                }
                i = i + 1;
            }
            Ok(tm2)
        },
        Term::Const(n, ty) => Ok(Term::Const(n.clone(), type_subst(tyin, ty))),
        Term::Comb(f, x) => {
            let f2 = inst_rec(env, tyin, f)?;
            let x2 = inst_rec(env, tyin, x)?;
            Ok(Term::comb(f2, x2))
        },
        Term::Abs(y, t) => {
            let empty: Vec<(Term, Term)> = Vec::new();
            assert(envs(empty@) =~= Seq::<(STerm, STerm)>::empty());
            let y2 = inst_rec(empty.as_slice(), tyin, y)?;
            // (y, y2) :: env — innermost binder first.
            let env2 = cons_env(clone_term(y), clone_term(&y2), env);
            match inst_rec(env2.as_slice(), tyin, t) {
                Ok(t2) => Ok(Term::Abs(Box::new(y2), Box::new(t2))),
                Err(w) => {
                    if !term_eq(&w, &y2) {
                        // A clash from a deeper binder; propagate outward.
                        return Err(w);
                    }
                    // The freshly instantiated binder captured a free variable:
                    // rename it to a variant fresh for the instantiated free
                    // variables of the body, then redo the abstraction.
                    let fs = frees(t);
                    let mut ifrees: Vec<Term> = Vec::new();
                    let mut k: usize = 0;
                    while k < fs.len()
                        invariant
                            k <= fs@.len(),
                            ifrees@.len() == k,
                            forall|j: int| 0 <= j < k ==> #[trigger] ifrees@[j]@ == inst_free(ti, fs@[j]@),
                        decreases fs@.len() - k,
                    {
                        ifrees.push(inst_free_exec(tyin, &fs[k]));
                        k = k + 1;
                    }
                    assert(tms(ifrees@) =~= frees_spec(t@).map_values(|f: STerm| inst_free(ti, f))) by {
                        assert(tms(fs@) == frees_spec(t@));
                        assert forall|j: int| 0 <= j < fs@.len() implies tms(fs@)[j] == fs@[j]@ by {}
                    }
                    let fresh = variant(ifrees.as_slice(), &y2);
                    match (&fresh, &**y) {
                        (Term::Var(nm, _), Term::Var(_, oty)) => {
                            // z keeps the ORIGINAL binder type so the rename
                            // substitution over `t` type-checks.
                            let z = Term::Var(nm.clone(), clone_ty(oty));
                            let mut il: Vec<Instantiation> = Vec::new();
                            il.push(Instantiation { var: clone_term(y), term: clone_term(&z) });
                            assert(insts(il@) =~= seq![(y@, z@)]);
                            let renamed = vsubst_rec(il.as_slice(), t);
                            let z2 = Term::Var(nm.clone(), type_subst(tyin, oty));
                            proof {
                                lemma_rename_size(y@, z@, t@);
                            }
                            let env3 = cons_env(z, clone_term(&z2), env);
                            match inst_rec(env3.as_slice(), tyin, &renamed) {
                                Ok(t2) => Ok(Term::Abs(Box::new(z2), Box::new(t2))),
                                Err(w2) => Err(w2),
                            }
                        },
                        _ => Err(fresh),
                    }
                },
            }
        },
    }
}

/// Capture-avoiding type instantiation over a term. A clash that escapes to
/// the top means the term was malformed and is reported as an error.
pub fn inst_type(tyin: &[TypeInstantiation], tm: &Term) -> (r: Result<Term, CheckError>)
    ensures
        match r {
            Ok(t) => inst_type_spec(tyinsts(tyin@), tm@) == Some(t@),
            Err(_) => inst_type_spec(tyinsts(tyin@), tm@) is None,
        },
{
    let empty: Vec<(Term, Term)> = Vec::new();
    assert(envs(empty@) =~= Seq::<(STerm, STerm)>::empty());
    match inst_rec(empty.as_slice(), tyin, tm) {
        Ok(t) => Ok(t),
        Err(_) => Err(CheckError::new("INST_TYPE: unresolved capture")),
    }
}

// ===========================================================================
// The checker.
// ===========================================================================

/// A deep copy of a sequent.
pub fn clone_sequent(s: &Sequent) -> (r: Sequent)
    ensures
        r@ == s@,
{
    Sequent { hyps: clone_terms(s.hyps.as_slice()), concl: clone_term(&s.concl) }
}

impl Clone for Sequent {
    fn clone(&self) -> (r: Self)
        ensures
            r@ == self@,
    {
        clone_sequent(self)
    }
}

/// Whether two sequents are identical (same hypotheses in the same order, same
/// conclusion).
pub fn sequent_eq(a: &Sequent, b: &Sequent) -> (r: bool)
    ensures
        r == (a@ == b@),
{
    if a.hyps.len() != b.hyps.len() {
        return false;
    }
    let mut i: usize = 0;
    while i < a.hyps.len()
        invariant
            a.hyps@.len() == b.hyps@.len(),
            i <= a.hyps@.len(),
            forall|j: int| 0 <= j < i ==> a.hyps@[j]@ == b.hyps@[j]@,
        decreases a.hyps@.len() - i,
    {
        if !term_eq(&a.hyps[i], &b.hyps[i]) {
            assert(tms(a.hyps@)[i as int] != tms(b.hyps@)[i as int]);
            return false;
        }
        i = i + 1;
    }
    assert(tms(a.hyps@) =~= tms(b.hyps@));
    term_eq(&a.concl, &b.concl)
}

impl PartialEq for Sequent {
    fn eq(&self, other: &Self) -> (r: bool) {
        sequent_eq(self, other)
    }
}

impl vstd::std_specs::cmp::PartialEqSpecImpl for Sequent {
    open spec fn obeys_eq_spec() -> bool {
        true
    }

    open spec fn eq_spec(&self, other: &Sequent) -> bool {
        self@ == other@
    }
}

impl Eq for Sequent {

}

/// The message for a premise index `idx` that step `cur` may not cite: one at
/// `cur` or later is not a strictly-earlier step; an earlier one with no
/// derived sequent is out of range.
pub open spec fn premise_error_msg(idx: nat, cur: nat) -> Seq<char> {
    if idx >= cur {
        "step "@ + crate::text::decimal(cur) + ": premise index "@ + crate::text::decimal(idx)
            + " is not a strictly-earlier step"@
    } else {
        "step "@ + crate::text::decimal(cur) + ": premise index "@ + crate::text::decimal(idx) + " out of range"@
    }
}

/// The error for a premise index that step `cur` may not cite (see
/// [`premise_error_msg`]).
fn premise_error(idx: usize, cur: usize) -> (r: CheckError)
    ensures
        r.0@ == premise_error_msg(idx as nat, cur as nat),
{
    let mut s = String::new();
    s.append("step ");
    crate::text::push_decimal(&mut s, cur);
    s.append(": premise index ");
    crate::text::push_decimal(&mut s, idx);
    if idx >= cur {
        s.append(" is not a strictly-earlier step");
    } else {
        s.append(" out of range");
    }
    CheckError(s)
}

/// Fetch a strictly-earlier premise sequent, rejecting forward/self references.
fn premise(results: &[Sequent], idx: usize, cur: usize) -> (r: Result<&Sequent, CheckError>)
    ensures
        match r {
            Ok(s) => premise_spec(seqs(results@), idx as nat, cur as nat) == Some(s@),
            Err(e) => premise_spec(seqs(results@), idx as nat, cur as nat) is None && e.0@ == premise_error_msg(
                idx as nat,
                cur as nat,
            ),
        },
{
    if idx >= cur || idx >= results.len() {
        return Err(premise_error(idx, cur));
    }
    Ok(&results[idx])
}

/// Whether `v` is free in one of `hyps`.
fn free_in_hyps_exec(v: &Term, hyps: &Vec<Term>) -> (r: bool)
    ensures
        r == free_in_hyps(v@, tms(hyps@)),
{
    any_free(hyps.as_slice(), v)
}

/// The first premise index a step cites, in the order it names them, that is
/// not below `limit`.
pub open spec fn first_bad_premise(step: SStep, limit: nat) -> Option<nat> {
    let ps = step_premises(step);
    if ps.len() > 0 && ps[0] >= limit {
        Some(ps[0])
    } else if ps.len() > 1 && ps[1] >= limit {
        Some(ps[1])
    } else {
        None
    }
}

/// [`first_bad_premise`] computed.
fn first_bad_premise_exec(step: &Step, limit: usize) -> (r: Option<usize>)
    ensures
        match r {
            Some(k) => first_bad_premise(step@, limit as nat) == Some(k as nat),
            None => first_bad_premise(step@, limit as nat) is None,
        },
{
    let (a, b): (Option<usize>, Option<usize>) = match step {
        Step::MkComb { left, right } => (Some(*left), Some(*right)),
        Step::Abs { eq, .. } => (Some(*eq), None),
        Step::EqMp { eq, thm } => (Some(*eq), Some(*thm)),
        Step::DeductAntisym { left, right } => (Some(*left), Some(*right)),
        Step::Inst { thm, .. } => (Some(*thm), None),
        Step::InstType { thm, .. } => (Some(*thm), None),
        _ => (None, None),
    };
    match a {
        Some(x) => if x >= limit {
            return Some(x);
        },
        None => {},
    }
    match b {
        Some(y) => if y >= limit {
            return Some(y);
        },
        None => {},
    }
    None
}

/// Whether a step is an `ABS` whose bound term is not a variable (rejected
/// before its premise is looked at).
pub open spec fn abs_over_non_var(step: SStep) -> bool {
    step matches SStep::Abs { var, .. } && !(var is Var)
}

/// Apply one primitive-inference [`Step`] to the sequents derived by the
/// earlier steps, returning the resulting sequent, or an error if the step is
/// not a valid application of its rule. A premise at `cur` or later (or past
/// the derived sequents) is reported as a premise-index error naming the
/// first such premise.
pub fn apply_step(step: &Step, results: &[Sequent], cur: usize) -> (r: Result<Sequent, CheckError>)
    ensures
        match r {
            Ok(s) => step_spec(step@, seqs(results@), cur as nat) == Some(s@),
            Err(_) => step_spec(step@, seqs(results@), cur as nat) is None,
        },
        !abs_over_non_var(step@) ==> match first_bad_premise(
            step@,
            if cur < results@.len() { cur as nat } else { results@.len() },
        ) {
            Some(k) => r matches Err(e) && e.0@ == premise_error_msg(k, cur as nat),
            None => true,
        },
{
    proof {
        reveal_with_fuel(tm_view, 3);
    }
    let limit = if cur < results.len() { cur } else { results.len() };
    let abs_bad = match step {
        Step::Abs { var, .. } => !(var matches Term::Var(_, _)),
        _ => false,
    };
    assert(abs_bad == abs_over_non_var(step@));
    if !abs_bad {
        if let Some(k) = first_bad_premise_exec(step, limit) {
            proof {
                assert(premise_spec(seqs(results@), k as nat, cur as nat) is None);
            }
            return Err(premise_error(k, cur));
        }
    }
    apply_rule(step, results, cur)
}

/// The rule of a step applied to the earlier sequents (see [`step_spec`]).
fn apply_rule(step: &Step, results: &[Sequent], cur: usize) -> (r: Result<Sequent, CheckError>)
    ensures
        match r {
            Ok(s) => step_spec(step@, seqs(results@), cur as nat) == Some(s@),
            Err(_) => step_spec(step@, seqs(results@), cur as nat) is None,
        },
{
    proof {
        reveal_with_fuel(tm_view, 3);
    }
    match step {
        Step::Refl { term } => {
            let concl = mk_eq(term, term)?;
            let hyps: Vec<Term> = Vec::new();
            assert(tms(hyps@) =~= Seq::<STerm>::empty());
            Ok(Sequent { hyps, concl })
        },
        Step::MkComb { left, right } => {
            let s1 = premise(results, *left, cur)?;
            let s2 = premise(results, *right, cur)?;
            let (l1, r1) = dest_eq(&s1.concl)?;
            let (l2, r2) = dest_eq(&s2.concl)?;
            let r1_ty = type_of(r1)?;
            let r2_ty = type_of(r2)?;
            let types_agree = match &r1_ty {
                HolType::Tyapp(name, args) => {
                    proof {
                        lemma_tys_view_index(args@);
                    }
                    str_eq(name.as_str(), "fun") && args.len() == 2 && ty_eq(&args[0], &r2_ty)
                },
                _ => false,
            };
            if !types_agree {
                return Err(CheckError::new("MK_COMB: types do not agree"));
            }
            let concl = mk_eq(
                &Term::comb(clone_term(l1), clone_term(l2)),
                &Term::comb(clone_term(r1), clone_term(r2)),
            )?;
            Ok(Sequent { hyps: term_union(s1.hyps.as_slice(), s2.hyps.as_slice()), concl })
        },
        Step::Abs { var, eq } => {
            if !(var matches Term::Var(_, _)) {
                return Err(CheckError::new("ABS: bound term is not a variable"));
            }
            let s = premise(results, *eq, cur)?;
            if free_in_hyps_exec(var, &s.hyps) {
                return Err(CheckError::new("ABS: the abstracted variable is free in a hypothesis"));
            }
            let (l, r) = dest_eq(&s.concl)?;
            let concl = mk_eq(
                &Term::abs(clone_term(var), clone_term(l)),
                &Term::abs(clone_term(var), clone_term(r)),
            )?;
            Ok(Sequent { hyps: clone_terms(s.hyps.as_slice()), concl })
        },
        Step::Beta { term } => match term {
            Term::Comb(f, arg) => match &**f {
                Term::Abs(v, bod) => {
                    if term_eq(arg, v) {
                        let concl = mk_eq(term, bod)?;
                        let hyps: Vec<Term> = Vec::new();
                        assert(tms(hyps@) =~= Seq::<STerm>::empty());
                        Ok(Sequent { hyps, concl })
                    } else {
                        Err(
                            CheckError::new(
                                "BETA: not a trivial beta-redex ((\\v. bod) v with argument = bound var)",
                            ),
                        )
                    }
                },
                _ => Err(
                    CheckError::new(
                        "BETA: not a trivial beta-redex ((\\v. bod) v with argument = bound var)",
                    ),
                ),
            },
            _ => Err(CheckError::new("BETA: term is not an application")),
        },
        Step::Assume { term } => {
            let ty = type_of(term)?;
            if !ty_eq(&ty, &HolType::boolean()) {
                return Err(CheckError::new("ASSUME: term is not a proposition (bool)"));
            }
            let mut hyps: Vec<Term> = Vec::new();
            hyps.push(clone_term(term));
            assert(tms(hyps@) =~= seq![term@]);
            Ok(Sequent { hyps, concl: clone_term(term) })
        },
        Step::EqMp { eq, thm } => {
            let s_eq = premise(results, *eq, cur)?;
            let s_th = premise(results, *thm, cur)?;
            let (l, r) = dest_eq(&s_eq.concl)?;
            if !aconv(l, &s_th.concl) {
                return Err(
                    CheckError::new(
                        "EQ_MP: the second theorem's conclusion is not alpha-equal to the equation's LHS",
                    ),
                );
            }
            Ok(
                Sequent {
                    hyps: term_union(s_eq.hyps.as_slice(), s_th.hyps.as_slice()),
                    concl: clone_term(r),
                },
            )
        },
        Step::DeductAntisym { left, right } => {
            let s1 = premise(results, *left, cur)?;
            let s2 = premise(results, *right, cur)?;
            let asl1 = term_remove(&s2.concl, s1.hyps.as_slice());
            let asl2 = term_remove(&s1.concl, s2.hyps.as_slice());
            let concl = mk_eq(&s1.concl, &s2.concl)?;
            Ok(Sequent { hyps: term_union(asl1.as_slice(), asl2.as_slice()), concl })
        },
        Step::Inst { subst, thm } => {
            let s = premise(results, *thm, cur)?;
            let concl = vsubst(subst.as_slice(), &s.concl)?;
            let ghost il = insts(subst@);
            let mut hyps: Vec<Term> = Vec::new();
            let mut i: usize = 0;
            while i < s.hyps.len()
                invariant
                    i <= s.hyps@.len(),
                    hyps@.len() == i,
                    il == insts(subst@),
                    vsubst_spec(il, s.concl@) is Some,
                    forall|j: int| 0 <= j < i ==> #[trigger] hyps@[j]@ == vsubst_rec_spec(il, s.hyps@[j]@),
                decreases s.hyps@.len() - i,
            {
                let h = vsubst(subst.as_slice(), &s.hyps[i])?;
                hyps.push(h);
                i = i + 1;
            }
            assert(tms(hyps@) =~= tms(s.hyps@).map_values(|h: STerm| vsubst_rec_spec(il, h)));
            Ok(Sequent { hyps: dedup_conv(hyps), concl })
        },
        Step::InstType { subst, thm } => {
            let s = premise(results, *thm, cur)?;
            let concl = inst_type(subst.as_slice(), &s.concl)?;
            let ghost ti = tyinsts(subst@);
            let ghost hs = tms(s.hyps@);
            let mut hyps: Vec<Term> = Vec::new();
            let mut i: usize = 0;
            assert(hs.skip(0) == hs);
            assert(tms(hyps@) =~= Seq::<STerm>::empty());
            assert(step_spec(step@, seqs(results@), cur as nat) == inst_type_rule(ti, s@));
            while i < s.hyps.len()
                invariant
                    i <= s.hyps@.len(),
                    ti == tyinsts(subst@),
                    hs == tms(s.hyps@),
                    s@.hyps == hs,
                    inst_type_spec(ti, s.concl@) == Some(concl@),
                    step_spec(step@, seqs(results@), cur as nat) == inst_type_rule(ti, s@),
                    inst_all_spec(ti, hs) == match inst_all_spec(ti, hs.skip(i as int)) {
                        Some(rest) => Some(tms(hyps@) + rest),
                        None => None,
                    },
                decreases s.hyps@.len() - i,
            {
                assert(hs.skip(i as int).drop_first() == hs.skip(i + 1));
                assert(hs.skip(i as int)[0] == s.hyps@[i as int]@);
                let h = match inst_type(subst.as_slice(), &s.hyps[i]) {
                    Ok(h) => h,
                    Err(e) => {
                        assert(inst_all_spec(ti, hs.skip(i as int)) is None);
                        return Err(e);
                    },
                };
                let ghost before = tms(hyps@);
                hyps.push(h);
                proof {
                    assert(tms(hyps@) =~= before.push(h@));
                    if let Some(rest) = inst_all_spec(ti, hs.skip(i + 1)) {
                        assert(before + (seq![h@] + rest) =~= before.push(h@) + rest);
                    }
                }
                i = i + 1;
            }
            assert(hs.skip(s.hyps@.len() as int) =~= Seq::<STerm>::empty());
            assert(tms(hyps@) + Seq::<STerm>::empty() == tms(hyps@));
            Ok(Sequent { hyps: dedup_conv(hyps), concl })
        },
    }
}

/// Independently CHECK a proof log by re-applying each primitive inference
/// from first principles, returning the final derived sequent, or an error if
/// the log is empty or any step is invalid.
pub fn check_proof(proof: &Proof) -> (r: Result<Sequent, CheckError>)
    ensures
        match r {
            Ok(s) => check_spec(proof.steps_view()) == Some(s@),
            Err(_) => check_spec(proof.steps_view()) is None,
        },
{
    if proof.steps.len() == 0 {
        return Err(CheckError::new("empty proof: nothing to derive"));
    }
    let ghost st = proof.steps_view();
    let mut results: Vec<Sequent> = Vec::new();
    let mut i: usize = 0;
    assert(seqs(results@) =~= Seq::<SSequent>::empty());
    while i < proof.steps.len()
        invariant
            i <= proof.steps@.len(),
            st == proof.steps_view(),
            results_upto(st, i as nat) == Some(seqs(results@)),
            results@.len() == i,
        decreases proof.steps@.len() - i,
    {
        assert(st[i as int] == proof.steps@[i as int]@);
        let s = match apply_step(&proof.steps[i], results.as_slice(), i) {
            Ok(s) => s,
            Err(e) => {
                assert(results_upto(st, (i + 1) as nat) is None);
                proof {
                    lemma_results_none_persists(st, (i + 1) as nat, proof.steps@.len() as nat);
                }
                return Err(e);
            },
        };
        let ghost before = seqs(results@);
        results.push(s);
        assert(seqs(results@) =~= before.push(s@));
        i = i + 1;
    }
    let last = results.pop();
    match last {
        Some(s) => Ok(s),
        None => Err(CheckError::new("empty proof: nothing to derive")),
    }
}

proof fn lemma_results_none_persists(st: Seq<SStep>, n: nat, m: nat)
    requires
        results_upto(st, n) is None,
        n <= m,
    ensures
        results_upto(st, m) is None,
    decreases m - n,
{
    if n < m {
        lemma_results_none_persists(st, n, (m - 1) as nat);
    }
}

/// The premise indices a step names.
pub open spec fn step_premises(step: SStep) -> Seq<nat> {
    match step {
        SStep::MkComb { left, right } => seq![left, right],
        SStep::Abs { eq, .. } => seq![eq],
        SStep::EqMp { eq, thm } => seq![eq, thm],
        SStep::DeductAntisym { left, right } => seq![left, right],
        SStep::Inst { thm, .. } => seq![thm],
        SStep::InstType { thm, .. } => seq![thm],
        _ => Seq::empty(),
    }
}

/// A step may cite only strictly earlier steps: a step at position `cur` that
/// names a premise at `cur` or later is rejected, whatever was derived before.
pub proof fn lemma_premises_point_back(step: SStep, results: Seq<SSequent>, cur: nat)
    ensures
        (exists|k: int| 0 <= k < step_premises(step).len() && #[trigger] step_premises(step)[k] >= cur) ==> step_spec(
            step,
            results,
            cur,
        ) is None,
{
}

proof fn lemma_results_prefix(steps: Seq<SStep>, extra: Seq<SStep>, n: nat)
    requires
        n <= steps.len(),
    ensures
        results_upto(steps + extra, n) == results_upto(steps, n),
    decreases n,
{
    if n > 0 {
        lemma_results_prefix(steps, extra, (n - 1) as nat);
        assert((steps + extra)[n - 1] == steps[n - 1]);
    }
}

proof fn lemma_results_extend(steps: Seq<SStep>, n: nat, m: nat)
    requires
        n <= m,
        results_upto(steps, m) is Some,
    ensures
        results_upto(steps, n) is Some,
        results_upto(steps, n).unwrap() == results_upto(steps, m).unwrap().take(n as int),
        results_upto(steps, m).unwrap().len() == m,
    decreases m - n,
{
    lemma_results_len(steps, m);
    if n < m {
        lemma_results_extend(steps, n, (m - 1) as nat);
        let rs = results_upto(steps, (m - 1) as nat).unwrap();
        assert(results_upto(steps, m).unwrap() == rs.push(step_spec(steps[m - 1], rs, (m - 1) as nat).unwrap()));
        assert(rs.push(step_spec(steps[m - 1], rs, (m - 1) as nat).unwrap()).take(n as int) =~= rs.take(n as int));
    } else {
        assert(results_upto(steps, m).unwrap().take(n as int) =~= results_upto(steps, m).unwrap());
    }
}

proof fn lemma_results_len(steps: Seq<SStep>, n: nat)
    requires
        results_upto(steps, n) is Some,
    ensures
        results_upto(steps, n).unwrap().len() == n,
    decreases n,
{
    if n > 0 {
        lemma_results_len(steps, (n - 1) as nat);
    }
}

/// Checking replays a log step by step, so validity is prefix-closed: when a
/// log checks, so does each non-empty prefix of it, and the prefix proves the
/// sequent its last step derived within the whole log. Appending steps never
/// changes what the earlier steps derive.
pub proof fn lemma_check_prefix_closed(steps: Seq<SStep>, extra: Seq<SStep>)
    ensures
        forall|n: nat| n <= steps.len() ==> #[trigger] results_upto(steps + extra, n) == results_upto(steps, n),
        steps.len() > 0 && check_spec(steps + extra) is Some ==> check_spec(steps) is Some && check_spec(steps)
            == Some(results_upto(steps + extra, (steps + extra).len()).unwrap()[steps.len() - 1]),
{
    assert forall|n: nat| n <= steps.len() implies #[trigger] results_upto(steps + extra, n) == results_upto(steps, n) by {
        lemma_results_prefix(steps, extra, n);
    }
    if steps.len() > 0 && check_spec(steps + extra) is Some {
        let all = steps + extra;
        lemma_results_extend(all, steps.len(), all.len());
        lemma_results_prefix(steps, extra, steps.len());
        lemma_results_len(steps, steps.len());
    }
}

/// No hypothesis is alpha-equivalent to a later one.
pub open spec fn hyps_distinct(hs: Seq<STerm>) -> bool {
    forall|i: int, j: int| 0 <= i < j < hs.len() ==> !aconv_spec(#[trigger] hs[i], #[trigger] hs[j])
}

proof fn lemma_union_distinct(out: Seq<STerm>, xs: Seq<STerm>)
    requires
        hyps_distinct(out),
    ensures
        hyps_distinct(union_spec(out, xs)),
    decreases xs.len(),
{
    if xs.len() > 0 {
        if has_aconv(out, xs[0]) {
            lemma_union_distinct(out, xs.drop_first());
        } else {
            let o2 = out.push(xs[0]);
            assert forall|i: int, j: int| 0 <= i < j < o2.len() implies !aconv_spec(#[trigger] o2[i], #[trigger] o2[j]) by {
                if j == out.len() {
                    assert(o2[i] == out[i]);
                    if aconv_spec(out[i], xs[0]) {
                        assert(has_aconv(out, xs[0]));
                    }
                } else {
                    assert(o2[i] == out[i] && o2[j] == out[j]);
                }
            }
            lemma_union_distinct(o2, xs.drop_first());
        }
    }
}

proof fn lemma_remove_avoids(t: STerm, list: Seq<STerm>, x: STerm)
    requires
        forall|m: int| 0 <= m < list.len() ==> !aconv_spec(x, #[trigger] list[m]),
    ensures
        forall|k: int| 0 <= k < term_remove_spec(t, list).len() ==> !aconv_spec(x, #[trigger] term_remove_spec(t, list)[k]),
    decreases list.len(),
{
    if list.len() > 0 {
        let rest = list.drop_first();
        assert forall|m: int| 0 <= m < rest.len() implies !aconv_spec(x, #[trigger] rest[m]) by {
            assert(rest[m] == list[m + 1]);
        }
        lemma_remove_avoids(t, rest, x);
        if !aconv_spec(list[0], t) {
            let res = term_remove_spec(t, list);
            let r2 = term_remove_spec(t, rest);
            assert(res == seq![list[0]] + r2);
            assert forall|k: int| 0 <= k < res.len() implies !aconv_spec(x, #[trigger] res[k]) by {
                if k > 0 {
                    assert(res[k] == r2[k - 1]);
                }
            }
        }
    }
}

proof fn lemma_remove_distinct(t: STerm, list: Seq<STerm>)
    requires
        hyps_distinct(list),
    ensures
        hyps_distinct(term_remove_spec(t, list)),
    decreases list.len(),
{
    if list.len() > 0 {
        let rest = list.drop_first();
        assert(hyps_distinct(rest)) by {
            assert forall|i: int, j: int| 0 <= i < j < rest.len() implies !aconv_spec(#[trigger] rest[i], #[trigger] rest[j]) by {
                assert(rest[i] == list[i + 1] && rest[j] == list[j + 1]);
            }
        }
        lemma_remove_distinct(t, rest);
        if !aconv_spec(list[0], t) {
            let res = term_remove_spec(t, list);
            let r2 = term_remove_spec(t, rest);
            assert(res == seq![list[0]] + r2);
            assert forall|m: int| 0 <= m < rest.len() implies !aconv_spec(list[0], #[trigger] rest[m]) by {
                assert(rest[m] == list[m + 1]);
                assert(list[0] == list[0]);
                assert(!aconv_spec(list[0], list[m + 1]));
            }
            lemma_remove_avoids(t, rest, list[0]);
            assert forall|i: int, j: int| 0 <= i < j < res.len() implies !aconv_spec(#[trigger] res[i], #[trigger] res[j]) by {
                assert(res[j] == r2[j - 1]);
                if i > 0 {
                    assert(res[i] == r2[i - 1]);
                } else {
                    assert(res[0] == list[0]);
                }
            }
        }
    }
}

proof fn lemma_step_hyps_distinct(step: SStep, results: Seq<SSequent>, cur: nat)
    requires
        forall|i: int| 0 <= i < results.len() ==> hyps_distinct(#[trigger] results[i].hyps),
    ensures
        step_spec(step, results, cur) matches Some(s) ==> hyps_distinct(s.hyps),
{
    let empty = Seq::<STerm>::empty();
    assert(hyps_distinct(empty));
    match step {
        SStep::MkComb { left, right } => {
            if let (Some(s1), Some(s2)) = (premise_spec(results, left, cur), premise_spec(results, right, cur)) {
                assert(hyps_distinct(results[left as int].hyps));
                lemma_union_distinct(s1.hyps, s2.hyps);
            }
        },
        SStep::Assume { term } => {
            assert(hyps_distinct(seq![term]));
        },
        SStep::Abs { var, eq } => {
            if let Some(s) = premise_spec(results, eq, cur) {
                assert(hyps_distinct(results[eq as int].hyps));
            }
        },
        SStep::EqMp { eq, thm } => {
            if let (Some(s1), Some(s2)) = (premise_spec(results, eq, cur), premise_spec(results, thm, cur)) {
                assert(hyps_distinct(results[eq as int].hyps));
                lemma_union_distinct(s1.hyps, s2.hyps);
            }
        },
        SStep::DeductAntisym { left, right } => {
            if let (Some(s1), Some(s2)) = (premise_spec(results, left, cur), premise_spec(results, right, cur)) {
                assert(hyps_distinct(results[left as int].hyps));
                assert(hyps_distinct(results[right as int].hyps));
                lemma_remove_distinct(s2.concl, s1.hyps);
                lemma_union_distinct(term_remove_spec(s2.concl, s1.hyps), term_remove_spec(s1.concl, s2.hyps));
            }
        },
        SStep::Inst { subst, thm } => {
            if let Some(s) = premise_spec(results, thm, cur) {
                lemma_union_distinct(empty, s.hyps.map_values(|h: STerm| vsubst_rec_spec(subst, h)));
            }
        },
        SStep::InstType { subst, thm } => {
            if let Some(s) = premise_spec(results, thm, cur) {
                if let Some(hs) = inst_all_spec(subst, s.hyps) {
                    lemma_union_distinct(empty, hs);
                }
            }
        },
        _ => {},
    }
}

proof fn lemma_results_hyps_distinct(steps: Seq<SStep>, n: nat)
    ensures
        results_upto(steps, n) matches Some(rs) ==> forall|i: int| 0 <= i < rs.len() ==> hyps_distinct(#[trigger] rs[i].hyps),
    decreases n,
{
    if n > 0 {
        lemma_results_hyps_distinct(steps, (n - 1) as nat);
        if let Some(rs) = results_upto(steps, (n - 1) as nat) {
            lemma_step_hyps_distinct(steps[n - 1], rs, (n - 1) as nat);
            if let Some(s) = step_spec(steps[n - 1], rs, (n - 1) as nat) {
                let rs2 = rs.push(s);
                assert forall|i: int| 0 <= i < rs2.len() implies hyps_distinct(#[trigger] rs2[i].hyps) by {
                    if i < rs.len() {
                        assert(rs2[i] == rs[i]);
                    }
                }
            }
        }
    }
}

/// A checked sequent carries its hypotheses as a set up to alpha-equivalence:
/// no hypothesis is alpha-equivalent to a later one. An empty log proves
/// nothing.
pub proof fn lemma_checked_hyps_distinct(steps: Seq<SStep>)
    ensures
        steps.len() == 0 ==> check_spec(steps) is None,
        check_spec(steps) matches Some(s) ==> hyps_distinct(s.hyps),
{
    if steps.len() > 0 {
        lemma_results_hyps_distinct(steps, steps.len());
        if results_upto(steps, steps.len()) is Some {
            lemma_results_len(steps, steps.len());
        }
    }
}

proof fn lemma_union_from(out: Seq<STerm>, xs: Seq<STerm>)
    ensures
        forall|h: STerm| #[trigger] union_spec(out, xs).contains(h) ==> out.contains(h) || xs.contains(h),
    decreases xs.len(),
{
    if xs.len() > 0 {
        let rest = xs.drop_first();
        let o2 = if has_aconv(out, xs[0]) { out } else { out.push(xs[0]) };
        lemma_union_from(o2, rest);
        assert forall|h: STerm| #[trigger] union_spec(out, xs).contains(h) implies out.contains(h) || xs.contains(h) by {
            assert(union_spec(out, xs) == union_spec(o2, rest));
            if o2.contains(h) && !out.contains(h) {
                let k = choose|k: int| 0 <= k < o2.len() && o2[k] == h;
                assert(k == out.len());
                assert(xs[0] == h);
            }
            if rest.contains(h) {
                let k = choose|k: int| 0 <= k < rest.len() && rest[k] == h;
                assert(xs[k + 1] == h);
            }
        }
    }
}

/// Every step the checker accepts is an instance of its HOL Light rule: its
/// cited premises are strictly earlier derived sequents, the rule's side
/// condition holds, and the result has the rule's shape.
/// * `REFL t` proves `|- t = t`;
/// * `MK_COMB` needs two equations `l1 = r1`, `l2 = r2` whose `r1` is a
///   function on the type of `r2`, and proves `l1 l2 = r1 r2` from their
///   hypotheses;
/// * `ABS v` needs a variable `v` free in no hypothesis of the equation
///   `l = r`, and proves `(\v. l) = (\v. r)` under the same hypotheses;
/// * `BETA` takes only a redex whose argument is its bound variable;
/// * `ASSUME p` needs `p : bool` and proves `{p} |- p`;
/// * `EQ_MP` needs an equation `l = r` and a theorem whose conclusion is
///   alpha-equivalent to `l`, and proves `r` from their hypotheses;
/// * `DEDUCT_ANTISYM_RULE` proves the equation of the two conclusions.
pub proof fn lemma_step_sound(step: SStep, rs: Seq<SSequent>, cur: nat)
    ensures
        step_spec(step, rs, cur) matches Some(s) ==> match step {
            SStep::Refl { term } => s.hyps.len() == 0 && dest_eq_spec(s.concl) == Some((term, term)),
            SStep::MkComb { left, right } => {
                &&& left < cur && right < cur && left < rs.len() && right < rs.len()
                &&& dest_eq_spec(rs[left as int].concl) matches Some((l1, r1))
                &&& dest_eq_spec(rs[right as int].concl) matches Some((l2, r2))
                &&& type_of_spec(r2) matches Some(t2)
                &&& type_of_spec(r1) matches Some(t1)
                &&& t1 matches SType::Tyapp(name, args) && name == "fun"@ && args.len() == 2 && args[0] == t2
                &&& dest_eq_spec(s.concl) == Some(
                    (STerm::Comb(Box::new(l1), Box::new(l2)), STerm::Comb(Box::new(r1), Box::new(r2))),
                )
                &&& forall|h: STerm| #[trigger] s.hyps.contains(h) ==> rs[left as int].hyps.contains(h)
                    || rs[right as int].hyps.contains(h)
            },
            SStep::Abs { var, eq } => {
                &&& eq < cur && eq < rs.len()
                &&& var is Var
                &&& forall|i: int| 0 <= i < rs[eq as int].hyps.len() ==> !vfree_in_spec(var, #[trigger] rs[eq as int].hyps[i])
                &&& dest_eq_spec(rs[eq as int].concl) matches Some((l, r))
                &&& s.hyps == rs[eq as int].hyps
                &&& dest_eq_spec(s.concl) == Some(
                    (STerm::Abs(Box::new(var), Box::new(l)), STerm::Abs(Box::new(var), Box::new(r))),
                )
            },
            SStep::Beta { term } => {
                &&& term matches STerm::Comb(f, arg)
                &&& *f matches STerm::Abs(v, bod)
                &&& *arg == *v
                &&& s.hyps.len() == 0
                &&& dest_eq_spec(s.concl) == Some((term, *bod))
            },
            SStep::Assume { term } => type_of_spec(term) == Some(bool_ty()) && s.hyps == seq![term] && s.concl == term,
            SStep::EqMp { eq, thm } => {
                &&& eq < cur && thm < cur && eq < rs.len() && thm < rs.len()
                &&& dest_eq_spec(rs[eq as int].concl) matches Some((l, r))
                &&& aconv_spec(l, rs[thm as int].concl)
                &&& s.concl == r
                &&& forall|h: STerm| #[trigger] s.hyps.contains(h) ==> rs[eq as int].hyps.contains(h)
                    || rs[thm as int].hyps.contains(h)
            },
            SStep::DeductAntisym { left, right } => {
                &&& left < cur && right < cur && left < rs.len() && right < rs.len()
                &&& dest_eq_spec(s.concl) == Some((rs[left as int].concl, rs[right as int].concl))
            },
            SStep::Inst { thm, .. } => thm < cur && thm < rs.len(),
            SStep::InstType { thm, .. } => thm < cur && thm < rs.len(),
        },
{
    if let Some(s) = step_spec(step, rs, cur) {
        match step {
            SStep::MkComb { left, right } => {
                lemma_union_from(rs[left as int].hyps, rs[right as int].hyps);
                lemma_dest_mk_eq_any();
            },
            SStep::EqMp { eq, thm } => {
                lemma_union_from(rs[eq as int].hyps, rs[thm as int].hyps);
            },
            _ => {
                lemma_dest_mk_eq_any();
            },
        }
    }
}

proof fn lemma_dest_mk_eq_any()
    ensures
        forall|l: STerm, r: STerm|
            #[trigger] mk_eq_spec(l, r) is Some ==> dest_eq_spec(mk_eq_spec(l, r).unwrap()) == Some((l, r)),
{
}
} // verus!
