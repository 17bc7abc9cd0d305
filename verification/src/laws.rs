//! The algebraic laws of the library, stated and proved for all inputs.

use vstd::prelude::*;

use crate::model::{
    compose_m, is_op_m, lemma_subst_empty, simp_m, subst_m, unifiable, unifies, SimpM, SubstM,
    TermM,
};

verus! {

/// Unifying a term with itself binds nothing — `mgu` guarantees the
/// empty substitution on equal inputs — and the empty substitution is
/// the semantic identity: applying it leaves every term unchanged.
pub proof fn lemma_identity_unifier(u: TermM)
    ensures
        subst_m(Map::empty(), u) == u,
{
    lemma_subst_empty(u);
}

/// Unifiability is symmetric: with `mgu`'s success-iff-unifiable
/// contract, `mgu(t1, t2)` succeeds exactly when `mgu(t2, t1)` does,
/// though the two substitutions need not coincide.
pub proof fn lemma_unifiable_symmetric(t1: TermM, t2: TermM)
    ensures
        unifiable(t1, t2) <==> unifiable(t2, t1),
{
    if unifiable(t1, t2) {
        let m = choose|m: SubstM| unifies(m, t1, t2);
        assert(unifies(m, t2, t1));
    }
    if unifiable(t2, t1) {
        let m = choose|m: SubstM| unifies(m, t2, t1);
        assert(unifies(m, t1, t2));
    }
}

/// The empty substitution is the identity of composition, on both
/// sides: composing with it changes no binding.
pub proof fn lemma_compose_identity(s: SubstM)
    ensures
        compose_m(Map::empty(), s) == s,
        compose_m(s, Map::empty()) == s,
{
    let e = Map::<Seq<char>, TermM>::empty();
    assert(compose_m(e, s) =~= s);
    assert forall|k: Seq<char>| s.dom().contains(k) implies compose_m(s, e)[k] == s[k] by {
        lemma_subst_empty(s[k]);
    }
    assert(compose_m(s, e) =~= s);
}

/// Arithmetic simplification is idempotent: a successfully simplified
/// term simplifies again to itself.
pub proof fn lemma_simplify_idempotent(t: TermM)
    ensures
        simp_m(t) matches SimpM::Val(v) ==> simp_m(v) == SimpM::Val(v),
{
    if simp_m(t) is Val {
        let v = simp_m(t)->Val_0;
        match t {
            TermM::Ctr { name, args } => {
                if is_op_m(name) && args.len() == 2 {
                    assert(v is Num);
                } else {
                    assert(v == t);
                }
            },
            _ => {
                assert(v == t);
            },
        }
        assert(simp_m(v) == SimpM::Val(v));
    }
}

} // verus!
