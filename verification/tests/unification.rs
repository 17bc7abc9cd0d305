use prolog_core::{term_eq, Atom, Subst, Substitution, Term, UnificationError};

fn var(n: &str) -> Term {
    Term::Var { name: n.to_string() }
}

fn num(v: u32) -> Term {
    Term::Num { val: v }
}

fn ctr(n: &str, args: Vec<Term>) -> Term {
    Term::Ctr { name: n.to_string(), args }
}

#[test]
fn test() -> Result<(), UnificationError> {
    let t1 = var("oi");
    let t2 = num(4);
    let mgu = t1.mgu(&t2)?;
    println!("mgu: {mgu:?}");
    Ok(())
}

#[test]
fn var_num_binds_variable() {
    let s = var("x").mgu(&num(4)).unwrap();
    assert!(term_eq(&var("x").subst(&s), &num(4)));
    let s2 = num(4).mgu(&var("x")).unwrap();
    assert!(term_eq(&var("x").subst(&s2), &num(4)));
}

#[test]
fn identity_unification_binds_nothing() {
    let t = ctr("f", vec![var("x"), num(1), ctr("g", vec![var("y")])]);
    let s = t.mgu(&t).unwrap();
    assert!(s.0.is_empty());
    let probe = ctr("h", vec![var("x"), var("y"), var("z")]);
    assert!(term_eq(&probe.subst(&s), &probe));
}

#[test]
fn same_variable_unifies_with_itself() {
    let s = var("x").mgu(&var("x")).unwrap();
    assert!(s.0.is_empty());
}

#[test]
fn different_variables_bind_left_to_right() {
    let s = var("x").mgu(&var("y")).unwrap();
    assert!(term_eq(&var("x").subst(&s), &var("y")));
    assert!(term_eq(&var("y").subst(&s), &var("y")));
}

#[test]
fn occurs_check_rejects_cyclic_binding() {
    let r = var("x").mgu(&ctr("f", vec![var("x")]));
    assert!(matches!(r, Err(UnificationError::NotUnifiable)));
    let r2 = ctr("f", vec![var("x")]).mgu(&var("x"));
    assert!(matches!(r2, Err(UnificationError::NotUnifiable)));
}

#[test]
fn functor_name_mismatch_fails() {
    let r = ctr("f", vec![num(1)]).mgu(&ctr("g", vec![num(1)]));
    assert!(matches!(r, Err(UnificationError::NotUnifiable)));
}

#[test]
fn arity_mismatch_fails() {
    let r = ctr("f", vec![num(1)]).mgu(&ctr("f", vec![num(1), num(2)]));
    assert!(matches!(r, Err(UnificationError::NotUnifiable)));
}

#[test]
fn number_mismatch_fails() {
    let r = num(1).mgu(&num(2));
    assert!(matches!(r, Err(UnificationError::NotUnifiable)));
    assert!(num(7).mgu(&num(7)).unwrap().0.is_empty());
}

#[test]
fn num_against_compound_fails() {
    let r = num(1).mgu(&ctr("f", vec![]));
    assert!(matches!(r, Err(UnificationError::NotUnifiable)));
    let r2 = ctr("f", vec![]).mgu(&num(1));
    assert!(matches!(r2, Err(UnificationError::NotUnifiable)));
}

#[test]
fn cross_argument_binding_propagates() {
    let t1 = ctr("f", vec![var("x"), var("x")]);
    let t2 = ctr("f", vec![num(1), num(2)]);
    let r = t1.mgu(&t2);
    assert!(matches!(r, Err(UnificationError::NotUnifiable)));

    let t3 = ctr("f", vec![num(1), num(1)]);
    let s = t1.mgu(&t3).unwrap();
    assert!(term_eq(&var("x").subst(&s), &num(1)));
}

#[test]
fn unifier_makes_both_sides_equal() {
    let t1 = ctr("f", vec![var("x"), var("y")]);
    let t2 = ctr("f", vec![var("y"), num(3)]);
    let s = t1.mgu(&t2).unwrap();
    let a = t1.subst(&s);
    let b = t2.subst(&s);
    assert!(term_eq(&a, &b));
    assert!(term_eq(&a, &ctr("f", vec![num(3), num(3)])));
}

#[test]
fn success_is_symmetric() {
    let pairs = vec![
        (ctr("f", vec![var("x"), num(2)]), ctr("f", vec![num(1), var("y")])),
        (var("x"), ctr("g", vec![num(1)])),
        (ctr("f", vec![var("x"), var("x")]), ctr("f", vec![num(1), num(2)])),
        (ctr("f", vec![num(1)]), ctr("g", vec![num(1)])),
    ];
    for (t1, t2) in pairs {
        assert_eq!(t1.mgu(&t2).is_ok(), t2.mgu(&t1).is_ok());
    }
}

#[test]
fn atom_unification_uses_compound_view() {
    let a1 = Atom("p".to_string(), vec![var("x"), num(2)]);
    let a2 = Atom("p".to_string(), vec![num(1), var("y")]);
    let s = a1.mgu(&a2).unwrap();
    assert!(term_eq(&a1.as_ctr().subst(&s), &a2.as_ctr().subst(&s)));

    let a3 = Atom("q".to_string(), vec![num(1), var("y")]);
    assert!(matches!(a1.mgu(&a3), Err(UnificationError::NotUnifiable)));

    let a4 = Atom("p".to_string(), vec![num(1)]);
    assert!(matches!(a1.mgu(&a4), Err(UnificationError::NotUnifiable)));
}

#[test]
fn substitution_is_threaded_through_arguments() {
    // After the first argument binds x to y, the second argument pair is
    // compared with that binding already applied.
    let t1 = ctr("f", vec![var("x"), var("x")]);
    let t2 = ctr("f", vec![var("y"), num(5)]);
    let s = t1.mgu(&t2).unwrap();
    assert!(term_eq(&t1.subst(&s), &ctr("f", vec![num(5), num(5)])));
    assert!(term_eq(&t2.subst(&s), &ctr("f", vec![num(5), num(5)])));
}

#[test]
fn failure_commits_no_bindings() {
    let t1 = ctr("f", vec![var("x"), num(1)]);
    let t2 = ctr("f", vec![num(7), num(2)]);
    let r = t1.mgu(&t2);
    assert!(matches!(r, Err(UnificationError::NotUnifiable)));
    // The caller's own substitutions are untouched values; a failed
    // unification hands back no partial result at all.
    let s = Substitution::empty();
    assert!(term_eq(&var("x").subst(&s), &var("x")));
}
