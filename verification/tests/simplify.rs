use prolog_core::{is_op, term_eq, Term, UnificationError};

fn var(n: &str) -> Term {
    Term::Var { name: n.to_string() }
}

fn num(v: u32) -> Term {
    Term::Num { val: v }
}

fn ctr(n: &str, args: Vec<Term>) -> Term {
    Term::Ctr { name: n.to_string(), args }
}

#[test]
fn nested_arithmetic_reduces() {
    let t = ctr("+", vec![num(2), ctr("*", vec![num(3), num(4)])]);
    let r = t.simplify().unwrap();
    assert!(term_eq(&r, &num(14)));
}

#[test]
fn variable_operand_fails() {
    let t = ctr("+", vec![var("x"), num(1)]);
    assert!(matches!(t.simplify(), Err(UnificationError::NotUnifiable)));
}

#[test]
fn subtraction_and_division() {
    assert!(term_eq(&ctr("-", vec![num(5), num(3)]).simplify().unwrap(), &num(2)));
    assert!(term_eq(&ctr("/", vec![num(7), num(2)]).simplify().unwrap(), &num(3)));
}

#[test]
fn division_by_zero_is_an_arithmetic_error() {
    let t = ctr("/", vec![num(1), num(0)]);
    assert!(matches!(t.simplify(), Err(UnificationError::Arithmetic)));
}

#[test]
fn subtraction_underflow_is_an_arithmetic_error() {
    let t = ctr("-", vec![num(3), num(5)]);
    assert!(matches!(t.simplify(), Err(UnificationError::Arithmetic)));
}

#[test]
fn addition_overflow_is_an_arithmetic_error() {
    let t = ctr("+", vec![num(u32::MAX), num(1)]);
    assert!(matches!(t.simplify(), Err(UnificationError::Arithmetic)));
}

#[test]
fn multiplication_overflow_is_an_arithmetic_error() {
    let t = ctr("*", vec![num(1 << 20), num(1 << 20)]);
    assert!(matches!(t.simplify(), Err(UnificationError::Arithmetic)));
}

#[test]
fn operator_with_wrong_arity_fails() {
    assert!(matches!(
        ctr("+", vec![num(1)]).simplify(),
        Err(UnificationError::NotUnifiable)
    ));
    assert!(matches!(
        ctr("+", vec![num(1), num(2), num(3)]).simplify(),
        Err(UnificationError::NotUnifiable)
    ));
}

#[test]
fn ordinary_compounds_pass_through_unchanged() {
    let t = ctr("f", vec![ctr("+", vec![num(1), num(2)])]);
    let r = t.clone().simplify().unwrap();
    assert!(term_eq(&r, &t));
}

#[test]
fn leaves_simplify_to_themselves() {
    assert!(term_eq(&var("x").simplify().unwrap(), &var("x")));
    assert!(term_eq(&num(9).simplify().unwrap(), &num(9)));
}

#[test]
fn simplification_is_idempotent_on_ground_terms() {
    let terms = vec![
        ctr("+", vec![num(2), ctr("*", vec![num(3), num(4)])]),
        ctr("-", vec![ctr("+", vec![num(1), num(1)]), num(2)]),
        ctr("pair", vec![num(1), num(2)]),
        num(41),
    ];
    for t in terms {
        let once = t.simplify().unwrap();
        let twice = once.clone().simplify().unwrap();
        assert!(term_eq(&twice, &once));
    }
}

#[test]
fn error_in_left_operand_wins() {
    let t = ctr("+", vec![ctr("/", vec![num(1), num(0)]), var("x")]);
    assert!(matches!(t.simplify(), Err(UnificationError::Arithmetic)));
}

#[test]
fn operator_names() {
    assert!(is_op(&"+".to_string()));
    assert!(is_op(&"-".to_string()));
    assert!(is_op(&"*".to_string()));
    assert!(is_op(&"/".to_string()));
    assert!(!is_op(&"plus".to_string()));
    assert!(!is_op(&"".to_string()));
}
