//! The term data model, substitutions over it, variable queries, and
//! arithmetic simplification.

use vstd::prelude::*;

use crate::imrc::{
    hm_clone, hm_contains, hm_contents, hm_entries, hm_get, hm_insert, hm_new, vec_contains,
    vec_contents, vec_get, vec_len, vec_new, vec_push_back,
};
use crate::mgu::UnificationError;
use crate::model::{
    arith_m, args_size, compose_m, has_var_m, is_op_m, lemma_args_size_ge, seq_union, simp_m,
    subst_args, subst_m, term_size, term_vars, terms_vars_from, SimpM, SubstM, TermM,
};

verus! {

/// A term: a logic variable, an unsigned integer constant, or a functor
/// applied to an ordered list of argument terms.
#[derive(Debug)]
pub enum Term {
    Var { name: String },
    Num { val: u32 },
    Ctr { name: String, args: Vec<Term> },
}

impl Term {
    /// The mathematical model of this term.
    pub open spec fn model(&self) -> TermM
        decreases self,
    {
        match self {
            Term::Var { name } => TermM::Var { name: name@ },
            Term::Num { val } => TermM::Num { val: *val },
            Term::Ctr { name, args } => TermM::Ctr { name: name@, args: terms_view(args@) },
        }
    }
}

/// The models of a sequence of terms, pointwise.
pub open spec fn terms_view(s: Seq<Term>) -> Seq<TermM>
    decreases s,
{
    if s.len() == 0 {
        Seq::empty()
    } else {
        seq![s[0].model()] + terms_view(s.subrange(1, s.len() as int))
    }
}

/// `terms_view` is the pointwise image of `Term::model`.
pub broadcast proof fn lemma_terms_view_index(s: Seq<Term>)
    ensures
        (#[trigger] terms_view(s)).len() == s.len(),
        forall|i: int| 0 <= i < s.len() ==> #[trigger] terms_view(s)[i] == s[i].model(),
    decreases s.len(),
{
    if s.len() > 0 {
        let rest = s.subrange(1, s.len() as int);
        lemma_terms_view_index(rest);
        assert forall|i: int| 0 <= i < s.len() implies #[trigger] terms_view(s)[i]
            == s[i].model() by {
            if i > 0 {
                assert(terms_view(s)[i] == terms_view(rest)[i - 1]);
                assert(rest[i - 1] == s[i]);
            }
        }
    }
}

impl View for Term {
    type V = TermM;

    open spec fn view(&self) -> TermM {
        self.model()
    }
}

/// A named relation applied to an ordered argument list; the canonical
/// compound-term view loses no information.
pub struct Atom(pub String, pub Vec<Term>);

impl View for Atom {
    type V = TermM;

    open spec fn view(&self) -> TermM {
        TermM::Ctr { name: self.0@, args: terms_view(self.1@) }
    }
}

/// The head of a clause.
pub struct Head(pub Atom);

/// The body of a rule: atoms that must all hold.
pub struct Body(pub Vec<Atom>);

/// A fact asserted unconditionally, or a rule whose head holds when its
/// whole body holds.
pub enum Clause {
    Fact(Head),
    Rule(Head, Body),
}

/// An ordered sequence of clauses.
pub struct Program(pub Vec<Clause>);

/// An ordered sequence of atoms to be proven conjunctively.
pub struct Goal(pub Vec<Atom>);

/// The models of a sequence of atoms, pointwise.
pub open spec fn atoms_view(s: Seq<Atom>) -> Seq<TermM>
    decreases s,
{
    if s.len() == 0 {
        Seq::empty()
    } else {
        seq![s[0]@] + atoms_view(s.subrange(1, s.len() as int))
    }
}

/// `atoms_view` is the pointwise image of the atoms' views.
pub broadcast proof fn lemma_atoms_view_index(s: Seq<Atom>)
    ensures
        (#[trigger] atoms_view(s)).len() == s.len(),
        forall|i: int| 0 <= i < s.len() ==> #[trigger] atoms_view(s)[i] == s[i]@,
    decreases s.len(),
{
    if s.len() > 0 {
        let rest = s.subrange(1, s.len() as int);
        lemma_atoms_view_index(rest);
        assert forall|i: int| 0 <= i < s.len() implies #[trigger] atoms_view(s)[i] == s[i]@ by {
            if i > 0 {
                assert(atoms_view(s)[i] == atoms_view(rest)[i - 1]);
                assert(rest[i - 1] == s[i]);
            }
        }
    }
}

impl View for Goal {
    type V = Seq<TermM>;

    open spec fn view(&self) -> Seq<TermM> {
        atoms_view(self.0@)
    }
}

/// An immutable mapping from variable names to terms, backed by a
/// persistent hash map so composition shares structure.
#[derive(Debug)]
pub struct Substitution(pub im_rc::HashMap<String, Term>);

impl View for Substitution {
    type V = SubstM;

    open spec fn view(&self) -> SubstM {
        hm_contents(self.0)
    }
}

/// A deep copy of a term with the same model.
fn term_clone(t: &Term) -> (r: Term)
    ensures
        r@ == t@,
    decreases term_size(t@),
{
    match t {
        Term::Var { name } => Term::Var { name: name.clone() },
        Term::Num { val } => Term::Num { val: *val },
        Term::Ctr { name, args } => {
            let ghost s = terms_view(args@);
            proof {
                broadcast use lemma_terms_view_index;

            }
            let mut new_args: Vec<Term> = Vec::new();
            let mut i: usize = 0;
            while i < args.len()
                invariant
                    i <= args.len(),
                    s == terms_view(args@),
                    s.len() == args@.len(),
                    t@ == (TermM::Ctr { name: name@, args: s }),
                    new_args@.len() == i,
                    forall|j: int| 0 <= j < i ==> (#[trigger] new_args@[j])@ == s[j],
                decreases args.len() - i,
            {
                proof {
                    broadcast use lemma_terms_view_index;

                    lemma_args_size_ge(s, i as int);
                }
                let c = term_clone(&args[i]);
                new_args.push(c);
                i += 1;
            }
            proof {
                broadcast use lemma_terms_view_index;

                assert(terms_view(new_args@) =~= s);
            }
            Term::Ctr { name: name.clone(), args: new_args }
        },
    }
}

impl Clone for Term {
    /// A deep copy with the same model.
    fn clone(&self) -> (r: Term)
        ensures
            r@ == self@,
    {
        term_clone(self)
    }
}

/// Structural equality of terms: true exactly when the two terms are the
/// same variable, the same constant, or compounds with equal functor,
/// equal arity and pairwise equal arguments.
pub fn term_eq(a: &Term, b: &Term) -> (r: bool)
    ensures
        r == (a@ == b@),
    decreases term_size(a@),
{
    match (a, b) {
        (Term::Var { name: x }, Term::Var { name: y }) => *x == *y,
        (Term::Num { val: x }, Term::Num { val: y }) => *x == *y,
        (Term::Ctr { name: x, args: xs }, Term::Ctr { name: y, args: ys }) => {
            let ghost sx = terms_view(xs@);
            let ghost sy = terms_view(ys@);
            proof {
                broadcast use lemma_terms_view_index;

            }
            if !(*x == *y) {
                false
            } else if xs.len() != ys.len() {
                false
            } else {
                let mut i: usize = 0;
                while i < xs.len()
                    invariant
                        i <= xs.len(),
                        sx == terms_view(xs@),
                        sy == terms_view(ys@),
                        sx.len() == xs@.len(),
                        sy.len() == ys@.len(),
                        xs@.len() == ys@.len(),
                        a@ == (TermM::Ctr { name: x@, args: sx }),
                        b@ == (TermM::Ctr { name: y@, args: sy }),
                        forall|j: int| 0 <= j < i ==> sx[j] == sy[j],
                    decreases xs.len() - i,
                {
                    proof {
                        broadcast use lemma_terms_view_index;

                        lemma_args_size_ge(sx, i as int);
                    }
                    if !term_eq(&xs[i], &ys[i]) {
                        proof {
                            assert(sx[i as int] != sy[i as int]);
                        }
                        return false;
                    }
                    i += 1;
                }
                proof {
                    assert(sx =~= sy);
                }
                true
            }
        },
        _ => false,
    }
}

impl Substitution {
    /// Wrap an existing persistent map as a substitution.
    pub fn new(hm: im_rc::HashMap<String, Term>) -> (r: Self)
        ensures
            r@ == hm_contents(hm),
    {
        Self(hm)
    }

    /// The substitution binding nothing: the identity of composition.
    pub fn empty() -> (r: Self)
        ensures
            r@ == Map::<Seq<char>, TermM>::empty(),
    {
        let m = hm_new();
        proof {
            assert(hm_contents(m) =~= Map::<Seq<char>, TermM>::empty());
        }
        Self(m)
    }

    /// The substitution binding exactly one variable.
    pub(crate) fn singleton(name: &String, t: &Term) -> (r: Self)
        ensures
            r@ == Map::<Seq<char>, TermM>::empty().insert(name@, t@),
    {
        let mut m = hm_new();
        proof {
            assert(hm_contents(m) =~= Map::<Seq<char>, TermM>::empty());
        }
        hm_insert(&mut m, name.clone(), term_clone(t));
        Self(m)
    }

    /// Apply this substitution to a term: a single recursive pass that
    /// replaces bound variables by their values.
    pub fn apply(&self, t: &Term) -> (r: Term)
        ensures
            r@ == subst_m(self@, t@),
    {
        t.subst(self)
    }

    /// The substitution equivalent to applying `self`, then `other`:
    /// `other` is applied to every value bound by `self`, and `other`'s
    /// own bindings are folded in, winning on key collisions.
    pub fn compose(&self, other: Substitution) -> (r: Self)
        ensures
            r@ == compose_m(self@, other@),
    {
        let mut out = hm_clone(&other.0);
        let entries = hm_entries(&self.0);
        let n = entries.len();
        let mut i: usize = 0;
        while i < n
            invariant
                i <= n,
                n == entries@.len(),
                forall|j: int, l: int| 0 <= j < l < n ==> entries@[j].0@ != entries@[l].0@,
                forall|j: int|
                    0 <= j < n ==> self@.dom().contains(#[trigger] entries@[j].0@) && entries@[j].1@
                        == self@[entries@[j].0@],
                forall|k: Seq<char>|
                    self@.dom().contains(k) ==> exists|j: int|
                        0 <= j < n && #[trigger] entries@[j].0@ == k,
                forall|k: Seq<char>|
                    #[trigger] hm_contents(out).dom().contains(k) ==> other@.dom().contains(k)
                        || self@.dom().contains(k),
                forall|k: Seq<char>|
                    #[trigger] other@.dom().contains(k) ==> hm_contents(out).dom().contains(k)
                        && hm_contents(out)[k] == other@[k],
                forall|j: int|
                    0 <= j < i ==> hm_contents(out).dom().contains(#[trigger] entries@[j].0@),
                forall|k: Seq<char>|
                    #[trigger] hm_contents(out).dom().contains(k) && !other@.dom().contains(k)
                        ==> self@.dom().contains(k) && hm_contents(out)[k] == subst_m(
                        other@,
                        self@[k],
                    ),
            decreases n - i,
        {
            let k_in_other = hm_contains(&other.0, &entries[i].0);
            if !k_in_other {
                let t = entries[i].1.subst(&other);
                let key = entries[i].0.clone();
                hm_insert(&mut out, key, t);
            }
            i += 1;
        }
        proof {
            assert(hm_contents(out) =~= compose_m(self@, other@));
        }
        Self(out)
    }
}

/// Pair the elements of two lists positionally, stopping at the shorter.
pub fn combine<T>(l1: Vec<T>, l2: Vec<T>) -> (r: Vec<(T, T)>)
    ensures
        r@.len() == if l1@.len() <= l2@.len() {
            l1@.len()
        } else {
            l2@.len()
        },
        forall|i: int| 0 <= i < r@.len() ==> r@[i].0 == l1@[i] && r@[i].1 == l2@[i],
{
    let ghost g1 = l1@;
    let ghost g2 = l2@;
    let mut r: Vec<(T, T)> = Vec::new();
    let mut a = l1;
    let mut b = l2;
    while a.len() > 0 && b.len() > 0
        invariant
            r@.len() <= g1.len() && r@.len() <= g2.len(),
            a@ == g1.subrange(r@.len() as int, g1.len() as int),
            b@ == g2.subrange(r@.len() as int, g2.len() as int),
            forall|i: int| 0 <= i < r@.len() ==> r@[i].0 == g1[i] && r@[i].1 == g2[i],
        decreases a.len(),
    {
        let x = a.remove(0);
        let y = b.remove(0);
        proof {
            assert(x == g1[r@.len() as int]);
            assert(y == g2[r@.len() as int]);
            assert(a@ =~= g1.subrange(r@.len() as int + 1, g1.len() as int));
            assert(b@ =~= g2.subrange(r@.len() as int + 1, g2.len() as int));
        }
        r.push((x, y));
    }
    r
}

/// Everything that can report the ordered set of variable names it
/// mentions, in first-seen order and without duplicates.
pub trait Vars: Sized {
    /// The model of the variable list.
    spec fn vars_model(&self) -> Seq<Seq<char>>;

    /// The ordered set of variable names mentioned.
    fn vars(&self) -> (r: im_rc::Vector<String>)
        ensures
            vec_contents(r) == self.vars_model(),
    ;
}

/// Append to `l1` the members of `l2` it does not already hold.
fn vec_union(l1: im_rc::Vector<String>, l2: &im_rc::Vector<String>) -> (r: im_rc::Vector<String>)
    ensures
        vec_contents(r) == seq_union(vec_contents(l1), vec_contents(*l2)),
{
    let ghost c1 = vec_contents(l1);
    let ghost c2 = vec_contents(*l2);
    let mut ret = l1;
    let n = vec_len(l2);
    proof {
        assert(c2.subrange(0, n as int) =~= c2);
    }
    let mut i: usize = 0;
    while i < n
        invariant
            i <= n,
            n == c2.len(),
            c2 == vec_contents(*l2),
            seq_union(vec_contents(ret), c2.subrange(i as int, n as int)) == seq_union(c1, c2),
        decreases n - i,
    {
        proof {
            assert(c2.subrange(i as int, n as int)[0] == c2[i as int]);
            assert(c2.subrange(i as int, n as int).subrange(1, (n - i) as int) =~= c2.subrange(
                i as int + 1,
                n as int,
            ));
        }
        let x = vec_get(l2, i);
        if !vec_contains(&ret, &x) {
            vec_push_back(&mut ret, x);
        }
        i += 1;
    }
    proof {
        assert(c2.subrange(n as int, n as int).len() == 0);
    }
    ret
}

impl Vars for Term {
    open spec fn vars_model(&self) -> Seq<Seq<char>> {
        term_vars(self@)
    }

    fn vars(&self) -> (r: im_rc::Vector<String>)
        decreases term_size(self@),
    {
        match self {
            Term::Num { .. } => {
                let v = vec_new();
                proof {
                    assert(vec_contents(v) =~= Seq::<Seq<char>>::empty());
                }
                v
            },
            Term::Var { name } => {
                let mut v = vec_new();
                vec_push_back(&mut v, name.clone());
                proof {
                    assert(vec_contents(v) =~= seq![name@]);
                }
                v
            },
            Term::Ctr { name, args } => {
                let ghost s = terms_view(args@);
                proof {
                    broadcast use lemma_terms_view_index;

                    assert(s.subrange(0, s.len() as int) =~= s);
                }
                let mut acc = vec_new();
                proof {
                    assert(vec_contents(acc) =~= Seq::<Seq<char>>::empty());
                }
                let mut i: usize = 0;
                while i < args.len()
                    invariant
                        i <= args.len(),
                        s == terms_view(args@),
                        s.len() == args@.len(),
                        self@ == (TermM::Ctr { name: name@, args: s }),
                        terms_vars_from(vec_contents(acc), s.subrange(i as int, s.len() as int))
                            == terms_vars_from(Seq::empty(), s),
                    decreases args.len() - i,
                {
                    proof {
                        broadcast use lemma_terms_view_index;

                        lemma_args_size_ge(s, i as int);
                        assert(args@[i as int]@ == s[i as int]);
                        assert(self@ == (TermM::Ctr { name: name@, args: s }));
                        assert(term_size(self@) == 1 + args_size(s));
                    }
                    let vi = args[i].vars();
                    proof {
                        broadcast use lemma_terms_view_index;

                        assert(vec_contents(vi) == term_vars(s[i as int]));
                        assert(s.subrange(i as int, s.len() as int)[0] == s[i as int]);
                        assert(s.subrange(i as int, s.len() as int).subrange(
                            1,
                            s.len() - i,
                        ) =~= s.subrange(i as int + 1, s.len() as int));
                    }
                    acc = vec_union(acc, &vi);
                    i += 1;
                }
                proof {
                    assert(s.subrange(s.len() as int, s.len() as int).len() == 0);
                    assert(self@ == TermM::Ctr { name: name@, args: s });
                }
                acc
            },
        }
    }
}

impl Vars for Atom {
    open spec fn vars_model(&self) -> Seq<Seq<char>> {
        term_vars(self@)
    }

    fn vars(&self) -> (r: im_rc::Vector<String>) {
        let c = self.as_ctr();
        c.vars()
    }
}

impl Vars for Goal {
    open spec fn vars_model(&self) -> Seq<Seq<char>> {
        terms_vars_from(Seq::empty(), self@)
    }

    fn vars(&self) -> (r: im_rc::Vector<String>) {
        let ghost s = atoms_view(self.0@);
        proof {
            broadcast use lemma_atoms_view_index;

            assert(s.subrange(0, s.len() as int) =~= s);
        }
        let mut acc = vec_new();
                proof {
                    assert(vec_contents(acc) =~= Seq::<Seq<char>>::empty());
                }
        let mut i: usize = 0;
        while i < self.0.len()
            invariant
                i <= self.0.len(),
                s == atoms_view(self.0@),
                s.len() == self.0@.len(),
                terms_vars_from(vec_contents(acc), s.subrange(i as int, s.len() as int))
                    == terms_vars_from(Seq::empty(), s),
            decreases self.0.len() - i,
        {
            let vi = self.0[i].vars();
            proof {
                broadcast use lemma_atoms_view_index;

                assert(vec_contents(vi) == term_vars(s[i as int]));
                assert(s.subrange(i as int, s.len() as int)[0] == s[i as int]);
                assert(s.subrange(i as int, s.len() as int).subrange(1, s.len() - i) =~= s.subrange(
                    i as int + 1,
                    s.len() as int,
                ));
            }
            acc = vec_union(acc, &vi);
            i += 1;
        }
        proof {
            assert(s.subrange(s.len() as int, s.len() as int).len() == 0);
        }
        acc
    }
}

/// Everything a substitution can be applied to.
pub trait Subst: Sized + View {
    /// The model of the result of applying `m` to `self`.
    spec fn subst_model(&self, m: SubstM) -> Self::V;

    /// Apply a substitution: replace every free occurrence of a bound
    /// variable by its bound term, in a single pass.
    fn subst(&self, subs: &Substitution) -> (r: Self)
        ensures
            r@ == self.subst_model(subs@),
    ;
}

impl Subst for Term {
    open spec fn subst_model(&self, m: SubstM) -> TermM {
        subst_m(m, self@)
    }

    fn subst(&self, subs: &Substitution) -> (r: Term)
        decreases term_size(self@),
    {
        match self {
            Term::Num { val } => Term::Num { val: *val },
            Term::Var { name } => match hm_get(&subs.0, name) {
                Some(t) => t,
                None => Term::Var { name: name.clone() },
            },
            Term::Ctr { name, args } => {
                let ghost s = terms_view(args@);
                proof {
                    broadcast use lemma_terms_view_index;

                }
                let mut new_args: Vec<Term> = Vec::new();
                let mut i: usize = 0;
                while i < args.len()
                    invariant
                        i <= args.len(),
                        s == terms_view(args@),
                        s.len() == args@.len(),
                        self@ == (TermM::Ctr { name: name@, args: s }),
                        subs@ == hm_contents(subs.0),
                        new_args@.len() == i,
                        forall|j: int|
                            0 <= j < i ==> (#[trigger] new_args@[j])@ == subst_m(subs@, s[j]),
                    decreases args.len() - i,
                {
                    proof {
                        broadcast use lemma_terms_view_index;

                        lemma_args_size_ge(s, i as int);
                    }
                    let t = args[i].subst(subs);
                    new_args.push(t);
                    i += 1;
                }
                proof {
                    broadcast use lemma_terms_view_index;
                    broadcast use crate::model::lemma_subst_args_index;

                    assert(terms_view(new_args@) =~= subst_args(subs@, s));
                }
                Term::Ctr { name: name.clone(), args: new_args }
            },
        }
    }
}

impl Subst for Atom {
    open spec fn subst_model(&self, m: SubstM) -> TermM {
        subst_m(m, self@)
    }

    fn subst(&self, subs: &Substitution) -> (r: Atom) {
        let ghost s = terms_view(self.1@);
        proof {
            broadcast use lemma_terms_view_index;

        }
        let mut new_args: Vec<Term> = Vec::new();
        let mut i: usize = 0;
        while i < self.1.len()
            invariant
                i <= self.1.len(),
                s == terms_view(self.1@),
                s.len() == self.1@.len(),
                subs@ == hm_contents(subs.0),
                new_args@.len() == i,
                forall|j: int| 0 <= j < i ==> (#[trigger] new_args@[j])@ == subst_m(subs@, s[j]),
            decreases self.1.len() - i,
        {
            proof {
                broadcast use lemma_terms_view_index;

            }
            let t = self.1[i].subst(subs);
            new_args.push(t);
            i += 1;
        }
        proof {
            broadcast use lemma_terms_view_index;
            broadcast use crate::model::lemma_subst_args_index;

            assert(terms_view(new_args@) =~= subst_args(subs@, s));
        }
        Atom(self.0.clone(), new_args)
    }
}

impl Atom {
    /// The canonical compound-term view of this atom.
    pub fn as_ctr(&self) -> (r: Term)
        ensures
            r@ == self@,
    {
        let ghost s = terms_view(self.1@);
        proof {
            broadcast use lemma_terms_view_index;

        }
        let mut args: Vec<Term> = Vec::new();
        let mut i: usize = 0;
        while i < self.1.len()
            invariant
                i <= self.1.len(),
                s == terms_view(self.1@),
                s.len() == self.1@.len(),
                args@.len() == i,
                forall|j: int| 0 <= j < i ==> (#[trigger] args@[j])@ == s[j],
            decreases self.1.len() - i,
        {
            proof {
                broadcast use lemma_terms_view_index;

            }
            let c = term_clone(&self.1[i]);
            args.push(c);
            i += 1;
        }
        proof {
            broadcast use lemma_terms_view_index;

            assert(terms_view(args@) =~= s);
        }
        Term::Ctr { name: self.0.clone(), args }
    }
}

impl Term {
    /// Does the variable occur anywhere in this term?  Used by the
    /// occurs-check of the unifier.
    pub fn has_var(&self, var: &String) -> (r: bool)
        ensures
            r == has_var_m(self@, var@),
        decreases term_size(self@),
    {
        match self {
            Term::Var { name } => *name == *var,
            Term::Num { .. } => false,
            Term::Ctr { name, args } => {
                let ghost s = terms_view(args@);
                proof {
                    broadcast use lemma_terms_view_index;

                }
                let mut i: usize = 0;
                while i < args.len()
                    invariant
                        i <= args.len(),
                        s == terms_view(args@),
                        s.len() == args@.len(),
                        self@ == (TermM::Ctr { name: name@, args: s }),
                        forall|j: int| 0 <= j < i ==> !has_var_m(#[trigger] s[j], var@),
                    decreases args.len() - i,
                {
                    proof {
                        broadcast use lemma_terms_view_index;

                        lemma_args_size_ge(s, i as int);
                    }
                    if args[i].has_var(var) {
                        proof {
                            assert(has_var_m(s[i as int], var@));
                        }
                        return true;
                    }
                    i += 1;
                }
                false
            },
        }
    }
}

/// Is the functor name a recognized arithmetic operator?
pub fn is_op(name: &String) -> (r: bool)
    ensures
        r == is_op_m(name@),
{
    *name == "+".to_owned() || *name == "-".to_owned() || *name == "*".to_owned() || *name
        == "/".to_owned()
}

/// How an executable simplification result corresponds to its model.
pub open spec fn simp_matches(r: Result<Term, UnificationError>, s: SimpM) -> bool {
    match s {
        SimpM::Val(v) => r matches Ok(t) && t@ == v,
        SimpM::NotNum => r matches Err(e) && e == UnificationError::NotUnifiable,
        SimpM::Arith => r matches Err(e) && e == UnificationError::Arithmetic,
    }
}

/// One arithmetic operation over unsigned values, with overflow,
/// underflow and division by zero surfaced as arithmetic errors.
fn arith(name: &String, a: u32, b: u32) -> (r: Result<Term, UnificationError>)
    requires
        is_op_m(name@),
    ensures
        simp_matches(r, arith_m(name@, a, b)),
{
    if *name == "+".to_owned() {
        if a <= u32::MAX - b {
            Ok(Term::Num { val: a + b })
        } else {
            Err(UnificationError::Arithmetic)
        }
    } else if *name == "-".to_owned() {
        if a >= b {
            Ok(Term::Num { val: a - b })
        } else {
            Err(UnificationError::Arithmetic)
        }
    } else if *name == "*".to_owned() {
        proof {
            vstd::arithmetic::mul::lemma_mul_upper_bound(
                a as int,
                u32::MAX as int,
                b as int,
                u32::MAX as int,
            );
        }
        let p = (a as u64) * (b as u64);
        if p <= u32::MAX as u64 {
            Ok(Term::Num { val: p as u32 })
        } else {
            Err(UnificationError::Arithmetic)
        }
    } else {
        if b == 0 {
            Err(UnificationError::Arithmetic)
        } else {
            Ok(Term::Num { val: a / b })
        }
    }
}

impl Term {
    /// Reduce a compound term built from the arithmetic operators to a
    /// numeric normal form; other terms pass through unchanged.
    pub fn simplify(self) -> (r: Result<Term, UnificationError>)
        ensures
            simp_matches(r, simp_m(self@)),
        decreases term_size(self@),
    {
        let ghost t0 = self@;
        match self {
            Term::Ctr { name, args } => {
                if is_op(&name) {
                    if args.len() == 2 {
                        let ghost s = terms_view(args@);
                        proof {
                            broadcast use lemma_terms_view_index;

                            lemma_args_size_ge(s, 0);
                            lemma_args_size_ge(s, 1);
                            assert(t0 == (TermM::Ctr { name: name@, args: s }));
                            assert(s.len() == 2);
                        }
                        let mut args = args;
                        let y_raw = args.pop().unwrap();
                        let x_raw = args.pop().unwrap();
                        proof {
                            assert(x_raw@ == s[0]);
                            assert(y_raw@ == s[1]);
                        }
                        let sx = match x_raw.simplify() {
                            Ok(t) => t,
                            Err(e) => {
                                return Err(e);
                            },
                        };
                        let sy = match y_raw.simplify() {
                            Ok(t) => t,
                            Err(e) => {
                                return Err(e);
                            },
                        };
                        match (sx, sy) {
                            (Term::Num { val: a }, Term::Num { val: b }) => arith(&name, a, b),
                            _ => Err(UnificationError::NotUnifiable),
                        }
                    } else {
                        proof {
                            broadcast use lemma_terms_view_index;

                            assert(t0 == (TermM::Ctr { name: name@, args: terms_view(args@) }));
                            assert(terms_view(args@).len() != 2);
                            assert(simp_m(t0) == SimpM::NotNum);
                        }
                        Err(UnificationError::NotUnifiable)
                    }
                } else {
                    proof {
                        assert(t0 == (TermM::Ctr { name: name@, args: terms_view(args@) }));
                        assert(simp_m(t0) == SimpM::Val(t0));
                    }
                    Ok(Term::Ctr { name, args })
                }
            },
            other => {
                proof {
                    assert(other@ == t0);
                }
                Ok(other)
            },
        }
    }
}

} // verus!
