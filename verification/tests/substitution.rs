use prolog_core::{combine, term_eq, Atom, Goal, Subst, Substitution, Term, Vars};

fn var(n: &str) -> Term {
    Term::Var { name: n.to_string() }
}

fn num(v: u32) -> Term {
    Term::Num { val: v }
}

fn ctr(n: &str, args: Vec<Term>) -> Term {
    Term::Ctr { name: n.to_string(), args }
}

fn names(v: &im_rc::Vector<String>) -> Vec<String> {
    v.iter().cloned().collect()
}

#[test]
fn apply_replaces_bound_variables_only() {
    let mut hm = im_rc::HashMap::new();
    hm.insert("x".to_string(), num(1));
    let s = Substitution::new(hm);
    let t = ctr("f", vec![var("x"), ctr("g", vec![var("x")]), var("y"), num(9)]);
    let expected = ctr("f", vec![num(1), ctr("g", vec![num(1)]), var("y"), num(9)]);
    assert!(term_eq(&t.subst(&s), &expected));
}

#[test]
fn apply_method_matches_subst() {
    let mut hm = im_rc::HashMap::new();
    hm.insert("x".to_string(), num(8));
    let s = Substitution::new(hm);
    let t = ctr("f", vec![var("x"), var("y")]);
    assert!(term_eq(&s.apply(&t), &t.subst(&s)));
    assert!(term_eq(&s.apply(&t), &ctr("f", vec![num(8), var("y")])));
}

#[test]
fn apply_is_single_pass() {
    // x is bound to f(y) while y is bound elsewhere: one application
    // does not chase the transitive binding.
    let mut hm = im_rc::HashMap::new();
    hm.insert("x".to_string(), ctr("f", vec![var("y")]));
    hm.insert("y".to_string(), num(2));
    let s = Substitution::new(hm);
    let once = var("x").subst(&s);
    assert!(term_eq(&once, &ctr("f", vec![var("y")])));
    let twice = once.subst(&s);
    assert!(term_eq(&twice, &ctr("f", vec![num(2)])));
}

#[test]
fn compose_applies_second_to_first_values() {
    let s1 = var("x").mgu(&var("y")).unwrap();
    let s2 = var("y").mgu(&num(2)).unwrap();
    let s = s1.compose(s2);
    assert!(term_eq(&var("x").subst(&s), &num(2)));
    assert!(term_eq(&var("y").subst(&s), &num(2)));
}

#[test]
fn compose_right_bias_on_collision() {
    let mut h1 = im_rc::HashMap::new();
    h1.insert("x".to_string(), num(1));
    let s1 = Substitution::new(h1);
    let mut h2 = im_rc::HashMap::new();
    h2.insert("x".to_string(), num(2));
    let s2 = Substitution::new(h2);
    let s = s1.compose(s2);
    assert!(term_eq(&var("x").subst(&s), &num(2)));
}

#[test]
fn compose_with_empty_is_identity() {
    let terms = vec![
        var("x"),
        var("y"),
        ctr("f", vec![var("x"), ctr("g", vec![var("y"), var("z")]), num(3)]),
        num(0),
    ];
    let mk = || {
        let mut hm = im_rc::HashMap::new();
        hm.insert("x".to_string(), ctr("g", vec![var("y")]));
        hm.insert("y".to_string(), num(7));
        Substitution::new(hm)
    };
    let left = Substitution::empty().compose(mk());
    let right = mk().compose(Substitution::empty());
    let plain = mk();
    for t in terms {
        let expected = t.subst(&plain);
        assert!(term_eq(&t.subst(&left), &expected));
        assert!(term_eq(&t.subst(&right), &expected));
    }
}

#[test]
fn term_vars_first_seen_order_without_duplicates() {
    let t = ctr(
        "f",
        vec![var("x"), ctr("g", vec![var("y"), var("x")]), var("z"), var("y")],
    );
    let v = t.vars();
    assert_eq!(names(&v), vec!["x".to_string(), "y".to_string(), "z".to_string()]);
}

#[test]
fn leaf_vars() {
    assert_eq!(names(&num(3).vars()), Vec::<String>::new());
    assert_eq!(names(&var("q").vars()), vec!["q".to_string()]);
}

#[test]
fn atom_and_goal_vars() {
    let a1 = Atom("p".to_string(), vec![var("x"), var("y")]);
    assert_eq!(names(&a1.vars()), vec!["x".to_string(), "y".to_string()]);
    let a2 = Atom("q".to_string(), vec![var("y"), var("z")]);
    let g = Goal(vec![a1, a2]);
    assert_eq!(names(&g.vars()), vec!["x".to_string(), "y".to_string(), "z".to_string()]);
}

#[test]
fn as_ctr_is_canonical() {
    let a = Atom("p".to_string(), vec![num(1), var("w")]);
    assert!(term_eq(&a.as_ctr(), &ctr("p", vec![num(1), var("w")])));
}

#[test]
fn combine_pairs_positionally() {
    let r = combine(vec![1u32, 2, 3], vec![4u32, 5]);
    assert_eq!(r, vec![(1u32, 4u32), (2, 5)]);
    let r2 = combine(Vec::<u32>::new(), vec![1u32]);
    assert_eq!(r2, vec![]);
}

#[test]
fn term_eq_distinguishes_structure() {
    assert!(term_eq(&var("x"), &var("x")));
    assert!(!term_eq(&var("x"), &var("y")));
    assert!(!term_eq(&var("x"), &num(1)));
    assert!(term_eq(
        &ctr("f", vec![num(1), var("x")]),
        &ctr("f", vec![num(1), var("x")]),
    ));
    assert!(!term_eq(
        &ctr("f", vec![num(1), var("x")]),
        &ctr("f", vec![num(1), var("y")]),
    ));
    assert!(!term_eq(&ctr("f", vec![num(1)]), &ctr("f", vec![num(1), num(1)])));
}

#[test]
fn has_var_looks_through_structure() {
    let t = ctr("f", vec![num(1), ctr("g", vec![var("deep")])]);
    assert!(t.has_var(&"deep".to_string()));
    assert!(!t.has_var(&"other".to_string()));
    assert!(var("x").has_var(&"x".to_string()));
    assert!(!num(4).has_var(&"x".to_string()));
}
