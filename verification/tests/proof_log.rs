use theoremata_prover::proof_log::{
    aconv, apply_step, check_proof, dest_eq, mk_eq, HolType, Instantiation, Proof, Step, Term,
    TypeInstantiation,
};

fn tya() -> HolType {
    HolType::var("A")
}
fn tyb() -> HolType {
    HolType::var("B")
}
fn v(name: &str, ty: HolType) -> Term {
    Term::var(name, ty)
}

#[test]
fn refl_derives_reflexive_equation() {
    let x = v("x", tya());
    let proof = Proof::new(vec![Step::Refl { term: x.clone() }]);
    let seq = check_proof(&proof).unwrap();
    assert!(seq.hyps.is_empty());
    assert_eq!(seq.concl, mk_eq(&x, &x).unwrap());
}

#[test]
fn beta_derives_trivial_redex() {
    let x = v("x", tya());
    let f = v("f", HolType::fun(tya(), tyb()));
    let bod = Term::comb(f.clone(), x.clone());
    let redex = Term::comb(Term::abs(x.clone(), bod.clone()), x.clone());
    let proof = Proof::new(vec![Step::Beta { term: redex.clone() }]);
    let seq = check_proof(&proof).unwrap();
    assert!(seq.hyps.is_empty());
    assert_eq!(seq.concl, mk_eq(&redex, &bod).unwrap());
}

#[test]
fn mk_comb_and_abs_chain() {
    let x = v("x", tya());
    let f = v("f", HolType::fun(tya(), tyb()));
    let proof = Proof::new(vec![
        Step::Refl { term: f.clone() },
        Step::Refl { term: x.clone() },
        Step::MkComb { left: 0, right: 1 },
        Step::Abs { var: x.clone(), eq: 2 },
    ]);
    let seq = check_proof(&proof).unwrap();
    assert!(seq.hyps.is_empty());
    let fx = Term::comb(f, x.clone());
    let expected = mk_eq(&Term::abs(x.clone(), fx.clone()), &Term::abs(x, fx)).unwrap();
    assert_eq!(seq.concl, expected);
}

#[test]
fn eq_mp_and_deduct_antisym() {
    let p = v("p", HolType::boolean());
    let q = v("q", HolType::boolean());
    let proof = Proof::new(vec![
        Step::Assume { term: p.clone() },
        Step::Assume { term: q.clone() },
        Step::DeductAntisym { left: 0, right: 1 },
        Step::Assume { term: p.clone() },
        Step::EqMp { eq: 2, thm: 3 },
    ]);
    let seq = check_proof(&proof).unwrap();
    assert_eq!(seq.concl, q);
    assert!(seq.hyps.iter().any(|h| aconv(h, &p)));
    assert!(seq.hyps.iter().any(|h| aconv(h, &q)));
    assert_eq!(seq.hyps.len(), 2);
}

#[test]
fn tampered_forward_premise_index_rejected() {
    let x = v("x", tya());
    let proof = Proof::new(vec![
        Step::Refl { term: x.clone() },
        Step::MkComb { left: 0, right: 2 },
    ]);
    let err = check_proof(&proof).unwrap_err();
    assert!(err.0.contains("premise index"), "unexpected error: {err:?}");
}

#[test]
fn illegal_beta_rejected() {
    let x = v("x", tya());
    let y = v("y", tya());
    let bad = Term::comb(Term::abs(x.clone(), x.clone()), y.clone());
    let proof = Proof::new(vec![Step::Beta { term: bad }]);
    assert!(check_proof(&proof).is_err());
}

#[test]
fn illegal_abs_over_free_hyp_rejected() {
    let x = v("x", HolType::boolean());
    let eq_xx = mk_eq(&x, &x).unwrap();
    let proof = Proof::new(vec![
        Step::Assume { term: eq_xx },
        Step::Abs { var: x, eq: 0 },
    ]);
    let err = check_proof(&proof).unwrap_err();
    assert!(err.0.contains("ABS"), "unexpected error: {err:?}");
}

#[test]
fn inst_is_capture_avoiding() {
    let x = v("x", tya());
    let y = v("y", tya());
    let proof = Proof::new(vec![
        Step::Refl { term: x.clone() },
        Step::Abs { var: y.clone(), eq: 0 },
        Step::Inst {
            subst: vec![Instantiation { var: x.clone(), term: y.clone() }],
            thm: 1,
        },
    ]);
    let seq = check_proof(&proof).unwrap();
    let (lhs, _rhs) = dest_eq(&seq.concl).unwrap();
    match lhs {
        Term::Abs(bound, body) => {
            assert_ne!(
                bound.as_ref(),
                &y,
                "binder must be renamed to avoid capture, got the captured form"
            );
            assert_eq!(body.as_ref(), &y);
            let captured = Term::abs(y.clone(), y.clone());
            assert_ne!(lhs, &captured, "checker must not produce the captured term");
        }
        other => panic!("expected an abstraction, got {other:?}"),
    }
}

#[test]
fn inst_type_is_capture_avoiding() {
    let bound = v("x", tya());
    let free = v("x", tyb());
    let lam = Term::abs(bound.clone(), free.clone());
    let proof = Proof::new(vec![
        Step::Refl { term: lam },
        Step::InstType {
            subst: vec![TypeInstantiation { var: "A".to_string(), ty: tyb() }],
            thm: 0,
        },
    ]);
    let seq = check_proof(&proof).unwrap();
    let (lhs, _rhs) = dest_eq(&seq.concl).unwrap();
    match lhs {
        Term::Abs(b, body) => {
            match b.as_ref() {
                Term::Var(nm, ty) => {
                    assert_eq!(ty, &tyb());
                    assert_ne!(nm, "x", "binder must be renamed to avoid capture");
                }
                other => panic!("expected a variable binder, got {other:?}"),
            }
            assert_eq!(body.as_ref(), &free);
        }
        other => panic!("expected an abstraction, got {other:?}"),
    }
}

#[test]
fn empty_proof_is_rejected() {
    let proof = Proof::new(vec![]);
    let err = check_proof(&proof).unwrap_err();
    assert!(err.0.contains("empty proof"));
    assert!(err.message().starts_with("proof-log check failed: "));
}

#[test]
fn checking_twice_gives_the_same_sequent() {
    let x = v("x", tya());
    let y = v("y", tya());
    let proof = Proof::new(vec![
        Step::Refl { term: x.clone() },
        Step::Abs { var: y.clone(), eq: 0 },
        Step::Inst { subst: vec![Instantiation { var: x, term: y }], thm: 1 },
    ]);
    let a = check_proof(&proof).unwrap();
    let b = check_proof(&proof).unwrap();
    assert_eq!(a, b);
}

#[test]
fn assume_of_non_proposition_rejected() {
    let x = v("x", tya());
    let proof = Proof::new(vec![Step::Assume { term: x }]);
    let err = check_proof(&proof).unwrap_err();
    assert!(err.0.contains("ASSUME"));
}

#[test]
fn mk_comb_type_mismatch_rejected() {
    let x = v("x", tya());
    let y = v("y", tyb());
    let proof = Proof::new(vec![
        Step::Refl { term: x },
        Step::Refl { term: y },
        Step::MkComb { left: 0, right: 1 },
    ]);
    assert!(check_proof(&proof).is_err());
}

#[test]
fn checking_is_deterministic() {
    let x = v("x", tya());
    let y = v("y", tya());
    let proof = Proof::new(vec![
        Step::Refl { term: x.clone() },
        Step::Abs { var: y.clone(), eq: 0 },
        Step::Inst { subst: vec![Instantiation { var: x, term: y }], thm: 1 },
    ]);
    let a = check_proof(&proof).unwrap();
    let b = check_proof(&proof).unwrap();
    assert_eq!(a, b);
}

fn comb_steps(f: &Term, x: &Term, n: usize) -> Vec<Step> {
    let all = vec![
        Step::Refl { term: f.clone() },
        Step::Refl { term: x.clone() },
        Step::MkComb { left: 0, right: 1 },
    ];
    all.into_iter().take(n).collect()
}

#[test]
fn every_prefix_of_a_valid_log_checks() {
    let x = v("x", tya());
    let f = v("f", HolType::fun(tya(), tyb()));
    let whole = check_proof(&Proof::new(comb_steps(&f, &x, 3))).unwrap();
    let fx = Term::comb(f.clone(), x.clone());
    assert_eq!(whole.concl, mk_eq(&fx, &fx).unwrap());
    let second = check_proof(&Proof::new(comb_steps(&f, &x, 2))).unwrap();
    assert_eq!(second.concl, mk_eq(&x, &x).unwrap());
    let first = check_proof(&Proof::new(comb_steps(&f, &x, 1))).unwrap();
    assert_eq!(first.concl, mk_eq(&f, &f).unwrap());
}

#[test]
fn self_citing_step_is_rejected() {
    let x = v("x", tya());
    let proof = Proof::new(vec![Step::Refl { term: x }, Step::Abs { var: v("y", tya()), eq: 1 }]);
    assert!(check_proof(&proof).is_err());
}

#[test]
fn forward_premise_error_names_step_and_index() {
    let x = v("x", tya());
    let proof = Proof::new(vec![Step::Refl { term: x }, Step::MkComb { left: 0, right: 12 }]);
    let err = check_proof(&proof).unwrap_err();
    assert_eq!(err.0, "step 1: premise index 12 is not a strictly-earlier step");
}

#[test]
fn earlier_premise_without_a_sequent_is_out_of_range() {
    let x = v("x", tya());
    let err = apply_step(&Step::Abs { var: x, eq: 1 }, &[], 3).unwrap_err();
    assert_eq!(err.0, "step 3: premise index 1 out of range");
}
