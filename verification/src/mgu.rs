//! The unifier: Robinson's algorithm with occurs-check.
//!
//! `mgu` carries the full correctness statement: it succeeds exactly on
//! unifiable pairs, the substitution it returns unifies the two terms, is
//! most general among all unifiers, is idempotent, and only mentions
//! variables of its inputs.

use vstd::prelude::*;
use vstd::set_lib::lemma_len_subset;

use crate::ast::{terms_view, Atom, Subst, Substitution, Term};
use crate::model::{
    has_var_m, lemma_compose_apply, lemma_single_absorb, lemma_subst_args_index, lemma_subst_empty,
    lemma_subst_size, lemma_subst_untouched, lemma_subst_vars, lemma_var_set_finite,
    lemma_args_size_ge, compose_m, most_general, sub_vars, subst_args, subst_m, term_size,
    unifiable, unifies, var_name_of, var_set, wf_sub, SubstM, TermM,
};

verus! {

/// Why an operation on terms could not complete: the two terms admit no
/// unifier, or an arithmetic reduction hit overflow, underflow or
/// division by zero.
#[derive(Debug, Clone, Copy, PartialEq, Eq, Structural)]
pub enum UnificationError {
    NotUnifiable,
    Arithmetic,
}

/// A variable never unifies with a compound term that contains it: any
/// substitution makes the compound strictly larger than the variable.
proof fn lemma_occurs_no_unifier(x: Seq<char>, c: TermM)
    requires
        c matches TermM::Ctr { .. },
        has_var_m(c, x),
    ensures
        !unifiable(TermM::Var { name: x }, c),
{
    assert forall|sig: SubstM| !unifies(sig, TermM::Var { name: x }, c) by {
        lemma_subst_size(sig, c, x);
    }
}

/// The facts the unifier needs of the empty substitution.
proof fn lemma_empty_sub_facts(t1: TermM, t2: TermM)
    requires
        t1 == t2,
    ensures
        unifies(Map::empty(), t1, t2),
        most_general(Map::empty(), t1, t2),
        wf_sub(Map::empty()),
        sub_vars(Map::empty()).subset_of(var_set(t1).union(var_set(t2))),
{
    let e = Map::<Seq<char>, TermM>::empty();
    lemma_subst_empty(t1);
    assert forall|sig: SubstM, u: TermM| unifies(sig, t1, t2) implies subst_m(sig, u)
        == #[trigger] subst_m(sig, subst_m(e, u)) by {
        lemma_subst_empty(u);
    }
    assert forall|z: Seq<char>| sub_vars(e).contains(z) implies var_set(t1).union(
        var_set(t2),
    ).contains(z) by {
        assert(!e.dom().contains(z));
    }
}

/// The facts the unifier needs of a single occurs-checked binding.
proof fn lemma_singleton_props(x: Seq<char>, v: TermM)
    requires
        !has_var_m(v, x),
    ensures
        unifies(Map::empty().insert(x, v), TermM::Var { name: x }, v),
        most_general(Map::empty().insert(x, v), TermM::Var { name: x }, v),
        wf_sub(Map::empty().insert(x, v)),
        sub_vars(Map::empty().insert(x, v)).subset_of(
            var_set(TermM::Var { name: x }).union(var_set(v)),
        ),
{
    let m1 = Map::<Seq<char>, TermM>::empty().insert(x, v);
    assert(m1.dom() =~= Set::empty().insert(x));
    assert forall|y: Seq<char>| has_var_m(v, y) implies !m1.dom().contains(y) by {
        if y == x {
            assert(false);
        }
    }
    lemma_subst_untouched(m1, v);
    assert(subst_m(m1, TermM::Var { name: x }) == v);
    assert forall|sig: SubstM, u: TermM| unifies(sig, TermM::Var { name: x }, v) implies subst_m(
        sig,
        u,
    ) == #[trigger] subst_m(sig, subst_m(m1, u)) by {
        lemma_single_absorb(sig, x, v, u);
    }
    assert forall|z: Seq<char>| sub_vars(m1).contains(z) implies var_set(
        TermM::Var { name: x },
    ).union(var_set(v)).contains(z) by {
        if m1.dom().contains(z) {
            assert(has_var_m(TermM::Var { name: x }, z));
        } else {
            let k = choose|k: Seq<char>| m1.dom().contains(k) && has_var_m(#[trigger] m1[k], z);
            assert(k == x && m1[k] == v);
            assert(has_var_m(v, z));
        }
    }
}

impl Term {
    /// Robinson's unification with occurs-check: the most general
    /// unifier of two terms, or the report that none exists.
    pub fn mgu(&self, other: &Term) -> (r: Result<Substitution, UnificationError>)
        ensures
            r is Ok <==> unifiable(self@, other@),
            r matches Ok(s) ==> unifies(s@, self@, other@),
            r matches Ok(s) ==> most_general(s@, self@, other@),
            r matches Ok(s) ==> wf_sub(s@),
            r matches Ok(s) ==> sub_vars(s@).subset_of(var_set(self@).union(var_set(other@))),
            r matches Err(e) ==> e == UnificationError::NotUnifiable,
            self@ == other@ ==> (r matches Ok(s) && s@ == Map::<Seq<char>, TermM>::empty()),
            self@ is Var && other@ is Var && self@ != other@ ==> (r is Ok && (r->Ok_0)@
                == Map::<Seq<char>, TermM>::empty().insert(var_name_of(self@), other@)),
            self@ is Var && other@ is Num ==> (r is Ok && (r->Ok_0)@ == Map::<
                Seq<char>,
                TermM,
            >::empty().insert(var_name_of(self@), other@)),
            self@ is Num && other@ is Var ==> (r is Ok && (r->Ok_0)@ == Map::<
                Seq<char>,
                TermM,
            >::empty().insert(var_name_of(other@), self@)),
            self@ is Var && other@ is Ctr && !has_var_m(other@, var_name_of(self@)) ==> (r is Ok
                && (r->Ok_0)@ == Map::<Seq<char>, TermM>::empty().insert(
                var_name_of(self@),
                other@,
            )),
            self@ is Ctr && other@ is Var && !has_var_m(self@, var_name_of(other@)) ==> (r is Ok
                && (r->Ok_0)@ == Map::<Seq<char>, TermM>::empty().insert(
                var_name_of(other@),
                self@,
            )),
        decreases var_set(self@).union(var_set(other@)).len(),
            term_size(self@) + term_size(other@),
    {
        match (self, other) {
            (Term::Var { name: x }, Term::Var { name: y }) => {
                if *x == *y {
                    let s = Substitution::empty();
                    proof {
                        lemma_empty_sub_facts(self@, other@);
                    }
                    Ok(s)
                } else {
                    let s = Substitution::singleton(x, other);
                    proof {
                        lemma_singleton_props(x@, other@);
                    }
                    Ok(s)
                }
            },
            (Term::Var { name: x }, Term::Ctr { .. }) => {
                if other.has_var(x) {
                    proof {
                        lemma_occurs_no_unifier(x@, other@);
                    }
                    Err(UnificationError::NotUnifiable)
                } else {
                    let s = Substitution::singleton(x, other);
                    proof {
                        lemma_singleton_props(x@, other@);
                    }
                    Ok(s)
                }
            },
            (Term::Ctr { .. }, Term::Var { name: y }) => {
                if self.has_var(y) {
                    proof {
                        lemma_occurs_no_unifier(y@, self@);
                        assert forall|sig: SubstM| !unifies(sig, self@, other@) by {
                            assert(!unifies(sig, other@, self@));
                        }
                    }
                    Err(UnificationError::NotUnifiable)
                } else {
                    let s = Substitution::singleton(y, self);
                    proof {
                        lemma_singleton_props(y@, self@);
                        let m1 = Map::<Seq<char>, TermM>::empty().insert(y@, self@);
                        assert(unifies(m1, self@, other@));
                        assert forall|sig: SubstM, u: TermM| unifies(sig, self@, other@) implies
                            subst_m(sig, u) == #[trigger] subst_m(sig, subst_m(m1, u)) by {
                            assert(unifies(sig, other@, self@));
                        }
                        assert(sub_vars(m1).subset_of(var_set(self@).union(var_set(other@))));
                    }
                    Ok(s)
                }
            },
            (Term::Num { val: a }, Term::Num { val: b }) => {
                if *a == *b {
                    let s = Substitution::empty();
                    proof {
                        lemma_empty_sub_facts(self@, other@);
                    }
                    Ok(s)
                } else {
                    proof {
                        assert forall|sig: SubstM| !unifies(sig, self@, other@) by {}
                    }
                    Err(UnificationError::NotUnifiable)
                }
            },
            (Term::Var { name: x }, Term::Num { .. }) => {
                let s = Substitution::singleton(x, other);
                proof {
                    lemma_singleton_props(x@, other@);
                }
                Ok(s)
            },
            (Term::Num { .. }, Term::Var { name: y }) => {
                let s = Substitution::singleton(y, self);
                proof {
                    lemma_singleton_props(y@, self@);
                    let m1 = Map::<Seq<char>, TermM>::empty().insert(y@, self@);
                    assert(unifies(m1, self@, other@));
                    assert forall|sig: SubstM, u: TermM| unifies(sig, self@, other@) implies
                        subst_m(sig, u) == #[trigger] subst_m(sig, subst_m(m1, u)) by {
                        assert(unifies(sig, other@, self@));
                    }
                    assert(sub_vars(m1).subset_of(var_set(self@).union(var_set(other@))));
                }
                Ok(s)
            },
            (Term::Ctr { name: f, args: xs }, Term::Ctr { name: g, args: ys }) => {
                let ghost sx = terms_view(xs@);
                let ghost sy = terms_view(ys@);
                proof {
                    broadcast use crate::ast::lemma_terms_view_index;

                }
                if !(*f == *g) || xs.len() != ys.len() {
                    proof {
                        broadcast use lemma_subst_args_index;

                        assert forall|sig: SubstM| !unifies(sig, self@, other@) by {
                            assert(subst_m(sig, self@) == (TermM::Ctr {
                                name: f@,
                                args: subst_args(sig, sx),
                            }));
                            assert(subst_args(sig, sx).len() == sx.len());
                            assert(subst_args(sig, sy).len() == sy.len());
                        }
                    }
                    Err(UnificationError::NotUnifiable)
                } else {
                    let ghost v_all = var_set(self@).union(var_set(other@));
                    proof {
                        lemma_var_set_finite(self@);
                        lemma_var_set_finite(other@);
                        lemma_empty_sub_facts(self@, self@);
                    }
                    let mut acc = Substitution::empty();
                    let n = xs.len();
                    let mut i: usize = 0;
                    while i < n
                        invariant
                            i <= n,
                            n == xs@.len(),
                            n == ys@.len(),
                            sx == terms_view(xs@),
                            sy == terms_view(ys@),
                            sx.len() == n,
                            sy.len() == n,
                            self@ == (TermM::Ctr { name: f@, args: sx }),
                            other@ == (TermM::Ctr { name: g@, args: sy }),
                            f@ == g@,
                            v_all == var_set(self@).union(var_set(other@)),
                            v_all.finite(),
                            wf_sub(acc@),
                            sub_vars(acc@).subset_of(v_all),
                            forall|j: int|
                                0 <= j < i ==> subst_m(acc@, #[trigger] sx[j]) == subst_m(
                                    acc@,
                                    sy[j],
                                ),
                            forall|sig: SubstM, u: TermM|
                                unifies(sig, self@, other@) ==> subst_m(sig, u) == #[trigger] subst_m(
                                    sig,
                                    subst_m(acc@, u),
                                ),
                            self@ == other@ ==> acc@ == Map::<Seq<char>, TermM>::empty(),
                        decreases n - i,
                    {
                        proof {
                            broadcast use crate::ast::lemma_terms_view_index;

                        }
                        let xi = xs[i].subst(&acc);
                        let yi = ys[i].subst(&acc);
                        proof {
                            broadcast use lemma_subst_args_index;

                            assert(xi@ == subst_m(acc@, sx[i as int]));
                            assert(yi@ == subst_m(acc@, sy[i as int]));
                            // Variables of the pair after applying `acc` stay
                            // inside `v_all` and avoid `acc`'s domain.
                            assert forall|w: Seq<char>|
                                has_var_m(xi@, w) || has_var_m(yi@, w) implies v_all.contains(w)
                                && !acc@.dom().contains(w) by {
                                if has_var_m(xi@, w) {
                                    lemma_subst_vars(acc@, sx[i as int], w);
                                } else {
                                    lemma_subst_vars(acc@, sy[i as int], w);
                                }
                                assert(v_all.contains(w)) by {
                                    if (has_var_m(sx[i as int], w) && !acc@.dom().contains(w)) {
                                        assert(has_var_m(self@, w));
                                    } else if (has_var_m(sy[i as int], w) && !acc@.dom().contains(
                                        w,
                                    )) {
                                        assert(has_var_m(other@, w));
                                    } else {
                                        assert(sub_vars(acc@).contains(w));
                                    }
                                }
                            }
                            let vp = var_set(xi@).union(var_set(yi@));
                            lemma_var_set_finite(xi@);
                            lemma_var_set_finite(yi@);
                            assert(vp.subset_of(v_all));
                            if exists|z: Seq<char>|
                                acc@.dom().contains(z) && (has_var_m(#[trigger] sx[i as int], z)
                                    || has_var_m(sy[i as int], z)) {
                                let z = choose|z: Seq<char>|
                                    acc@.dom().contains(z) && (has_var_m(
                                        #[trigger] sx[i as int],
                                        z,
                                    ) || has_var_m(sy[i as int], z));
                                assert(v_all.contains(z)) by {
                                    if has_var_m(sx[i as int], z) {
                                        assert(has_var_m(self@, z));
                                    } else {
                                        assert(has_var_m(other@, z));
                                    }
                                }
                                assert(!vp.contains(z));
                                vp.lemma_subset_not_in_lt(v_all, z);
                                assert(vp.len() < v_all.len());
                            } else {
                                assert forall|w: Seq<char>| has_var_m(sx[i as int], w) implies
                                    !acc@.dom().contains(w) by {}
                                lemma_subst_untouched(acc@, sx[i as int]);
                                lemma_subst_untouched(acc@, sy[i as int]);
                                assert(xi@ == sx[i as int]);
                                assert(yi@ == sy[i as int]);
                                lemma_len_subset(vp, v_all);
                                lemma_args_size_ge(sx, i as int);
                                lemma_args_size_ge(sy, i as int);
                                assert(term_size(xi@) + term_size(yi@) < term_size(self@)
                                    + term_size(other@));
                            }
                        }
                        match xi.mgu(&yi) {
                            Ok(s) => {
                                proof {
                                    broadcast use lemma_subst_args_index;

                                    let a = acc@;
                                    let b = s@;
                                    // `s` only mentions variables of the pair,
                                    // which avoid `acc`'s domain.
                                    assert forall|w: Seq<char>| sub_vars(b).contains(w) implies
                                        v_all.contains(w) && !a.dom().contains(w) by {
                                        assert(var_set(xi@).union(var_set(yi@)).contains(w));
                                    }
                                    assert(a.dom().disjoint(b.dom())) by {
                                        assert forall|w: Seq<char>|
                                            a.dom().contains(w) implies !b.dom().contains(w) by {
                                            if b.dom().contains(w) {
                                                assert(sub_vars(b).contains(w));
                                            }
                                        }
                                    }
                                    let c = compose_m(a, b);
                                    // Well-formedness of the composition.
                                    assert forall|k: Seq<char>, x: Seq<char>|
                                        c.dom().contains(k) && c.dom().contains(x) implies !(
                                        #[trigger] has_var_m(c[k], x)) by {
                                        if has_var_m(c[k], x) {
                                            if b.dom().contains(k) {
                                                assert(sub_vars(b).contains(x));
                                                assert(false);
                                            } else {
                                                assert(c[k] == subst_m(b, a[k]));
                                                lemma_subst_vars(b, a[k], x);
                                                if has_var_m(a[k], x) && !b.dom().contains(x) {
                                                    assert(sub_vars(a).contains(x));
                                                    assert(!a.dom().contains(x)) by {
                                                        assert(!has_var_m(a[k], x));
                                                    }
                                                    assert(false);
                                                } else {
                                                    assert(sub_vars(b).contains(x));
                                                    assert(false);
                                                }
                                            }
                                        }
                                    }
                                    // Its variables stay inside `v_all`.
                                    assert forall|w: Seq<char>| sub_vars(c).contains(w) implies
                                        v_all.contains(w) by {
                                        if c.dom().contains(w) {
                                            if a.dom().contains(w) {
                                                assert(sub_vars(a).contains(w));
                                            } else {
                                                assert(sub_vars(b).contains(w));
                                            }
                                        } else {
                                            let k = choose|k: Seq<char>|
                                                c.dom().contains(k) && has_var_m(
                                                    #[trigger] c[k],
                                                    w,
                                                );
                                            if b.dom().contains(k) {
                                                assert(sub_vars(b).contains(w));
                                            } else {
                                                assert(c[k] == subst_m(b, a[k]));
                                                lemma_subst_vars(b, a[k], w);
                                                if has_var_m(a[k], w) && !b.dom().contains(w) {
                                                    assert(sub_vars(a).contains(w));
                                                } else {
                                                    assert(sub_vars(b).contains(w));
                                                }
                                            }
                                        }
                                    }
                                    assert(c.dom().finite()) by {
                                        assert(c.dom() =~= a.dom().union(b.dom()));
                                    }
                                    // The pairs already unified stay unified.
                                    assert forall|j: int| 0 <= j < i + 1 implies subst_m(
                                        c,
                                        #[trigger] sx[j],
                                    ) == subst_m(c, sy[j]) by {
                                        lemma_compose_apply(a, b, sx[j]);
                                        lemma_compose_apply(a, b, sy[j]);
                                        if j < i {
                                            assert(subst_m(a, sx[j]) == subst_m(a, sy[j]));
                                        } else {
                                            assert(subst_m(b, xi@) == subst_m(b, yi@));
                                        }
                                    }
                                    // Every unifier of the whole terms is
                                    // absorbed by the new accumulator.
                                    assert forall|sig: SubstM, u: TermM|
                                        unifies(sig, self@, other@) implies subst_m(sig, u)
                                        == #[trigger] subst_m(sig, subst_m(c, u)) by {
                                        assert(subst_m(sig, self@) == (TermM::Ctr {
                                            name: f@,
                                            args: subst_args(sig, sx),
                                        }));
                                        assert(subst_m(sig, other@) == (TermM::Ctr {
                                            name: g@,
                                            args: subst_args(sig, sy),
                                        }));
                                        assert(subst_args(sig, sx) == subst_args(sig, sy));
                                        assert(subst_args(sig, sx)[i as int] == subst_m(
                                            sig,
                                            sx[i as int],
                                        ));
                                        assert(subst_args(sig, sy)[i as int] == subst_m(
                                            sig,
                                            sy[i as int],
                                        ));
                                        assert(subst_m(sig, sx[i as int]) == subst_m(
                                            sig,
                                            sy[i as int],
                                        ));
                                        assert(subst_m(sig, xi@) == subst_m(sig, sx[i as int]))
                                            by {
                                            assert(subst_m(sig, subst_m(a, sx[i as int]))
                                                == subst_m(sig, sx[i as int]));
                                        }
                                        assert(subst_m(sig, yi@) == subst_m(sig, sy[i as int]))
                                            by {
                                            assert(subst_m(sig, subst_m(a, sy[i as int]))
                                                == subst_m(sig, sy[i as int]));
                                        }
                                        assert(unifies(sig, xi@, yi@));
                                        lemma_compose_apply(a, b, u);
                                        assert(subst_m(sig, subst_m(b, subst_m(a, u))) == subst_m(
                                            sig,
                                            subst_m(a, u),
                                        ));
                                        assert(subst_m(sig, subst_m(a, u)) == subst_m(sig, u));
                                    }
                                    // On equal inputs nothing is ever bound.
                                    if self@ == other@ {
                                        assert(sx =~= sy);
                                        lemma_subst_empty(sx[i as int]);
                                        assert(xi@ == yi@);
                                        assert(b == Map::<Seq<char>, TermM>::empty());
                                        assert(c =~= Map::<Seq<char>, TermM>::empty());
                                    }
                                }
                                acc = acc.compose(s);
                            },
                            Err(e) => {
                                proof {
                                    broadcast use lemma_subst_args_index;

                                    assert forall|sig: SubstM| !unifies(sig, self@, other@) by {
                                        if unifies(sig, self@, other@) {
                                            assert(subst_m(sig, self@) == (TermM::Ctr {
                                                name: f@,
                                                args: subst_args(sig, sx),
                                            }));
                                            assert(subst_m(sig, other@) == (TermM::Ctr {
                                                name: g@,
                                                args: subst_args(sig, sy),
                                            }));
                                            assert(subst_args(sig, sx) == subst_args(sig, sy));
                                            assert(subst_args(sig, sx)[i as int] == subst_m(
                                                sig,
                                                sx[i as int],
                                            ));
                                            assert(subst_args(sig, sy)[i as int] == subst_m(
                                                sig,
                                                sy[i as int],
                                            ));
                                            assert(subst_m(sig, sx[i as int]) == subst_m(
                                                sig,
                                                sy[i as int],
                                            ));
                                            assert(subst_m(sig, subst_m(acc@, sx[i as int]))
                                                == subst_m(sig, sx[i as int]));
                                            assert(subst_m(sig, subst_m(acc@, sy[i as int]))
                                                == subst_m(sig, sy[i as int]));
                                            assert(unifies(sig, xi@, yi@));
                                            assert(unifiable(xi@, yi@));
                                            assert(false);
                                        }
                                    }
                                }
                                return Err(e);
                            },
                        }
                        i += 1;
                    }
                    proof {
                        broadcast use lemma_subst_args_index;

                        assert(subst_args(acc@, sx) =~= subst_args(acc@, sy));
                        assert(unifies(acc@, self@, other@));
                    }
                    Ok(acc)
                }
            },
            _ => {
                proof {
                    assert forall|sig: SubstM| !unifies(sig, self@, other@) by {}
                }
                Err(UnificationError::NotUnifiable)
            },
        }
    }
}

impl Atom {
    /// Unification of atoms through their canonical compound-term views:
    /// atoms with different relation names or arities never unify.
    pub fn mgu(&self, other: &Atom) -> (r: Result<Substitution, UnificationError>)
        ensures
            r is Ok <==> unifiable(self@, other@),
            r matches Ok(s) ==> unifies(s@, self@, other@),
            r matches Ok(s) ==> most_general(s@, self@, other@),
            r matches Ok(s) ==> wf_sub(s@),
            r matches Ok(s) ==> sub_vars(s@).subset_of(var_set(self@).union(var_set(other@))),
            r matches Err(e) ==> e == UnificationError::NotUnifiable,
            self@ == other@ ==> (r matches Ok(s) && s@ == Map::<Seq<char>, TermM>::empty()),
    {
        let c1 = self.as_ctr();
        let c2 = other.as_ctr();
        c1.mgu(&c2)
    }
}

} // verus!
