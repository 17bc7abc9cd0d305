use vstd::prelude::*;

verus! {

/// The mathematical model of a term: a logic variable, an unsigned
/// integer constant, or a functor applied to an ordered argument list.
pub enum TermM {
    Var { name: Seq<char> },
    Num { val: u32 },
    Ctr { name: Seq<char>, args: Seq<TermM> },
}

/// The mathematical model of a substitution: a finite partial map from
/// variable names to terms.
pub type SubstM = Map<Seq<char>, TermM>;

/// Does the variable `x` occur anywhere in `t`?
pub open spec fn has_var_m(t: TermM, x: Seq<char>) -> bool
    decreases t,
{
    match t {
        TermM::Var { name } => name == x,
        TermM::Num { .. } => false,
        TermM::Ctr { name: _, args } => exists|i: int|
            0 <= i < args.len() && has_var_m(#[trigger] args[i], x),
    }
}

/// Single-pass application of a substitution: every free occurrence of a
/// bound variable is replaced by its bound term; everything else is kept.
pub open spec fn subst_m(m: SubstM, t: TermM) -> TermM
    decreases t,
{
    match t {
        TermM::Var { name } => if m.dom().contains(name) {
            m[name]
        } else {
            t
        },
        TermM::Num { .. } => t,
        TermM::Ctr { name, args } => TermM::Ctr { name, args: subst_args(m, args) },
    }
}

/// Pointwise application of a substitution to a sequence of terms.
pub open spec fn subst_args(m: SubstM, s: Seq<TermM>) -> Seq<TermM>
    decreases s,
{
    if s.len() == 0 {
        Seq::empty()
    } else {
        seq![subst_m(m, s[0])] + subst_args(m, s.subrange(1, s.len() as int))
    }
}

/// `subst_args` is the pointwise image of `subst_m`.
pub broadcast proof fn lemma_subst_args_index(m: SubstM, s: Seq<TermM>)
    ensures
        (#[trigger] subst_args(m, s)).len() == s.len(),
        forall|i: int| 0 <= i < s.len() ==> #[trigger] subst_args(m, s)[i] == subst_m(m, s[i]),
    decreases s.len(),
{
    if s.len() > 0 {
        let rest = s.subrange(1, s.len() as int);
        lemma_subst_args_index(m, rest);
        assert forall|i: int| 0 <= i < s.len() implies #[trigger] subst_args(m, s)[i] == subst_m(
            m,
            s[i],
        ) by {
            if i > 0 {
                assert(subst_args(m, s)[i] == subst_args(m, rest)[i - 1]);
                assert(rest[i - 1] == s[i]);
            }
        }
    }
}

/// Composition of substitutions: applying `compose_m(a, b)` is applying
/// `a` and then `b`.  `b`'s values are folded into `a`'s bindings, and on
/// a key collision `b`'s binding wins.
pub open spec fn compose_m(a: SubstM, b: SubstM) -> SubstM {
    Map::new(
        |k: Seq<char>| a.dom().contains(k) || b.dom().contains(k),
        |k: Seq<char>| if b.dom().contains(k) {
            b[k]
        } else {
            subst_m(b, a[k])
        },
    )
}

/// `m` makes the two terms syntactically identical.
pub open spec fn unifies(m: SubstM, t1: TermM, t2: TermM) -> bool {
    subst_m(m, t1) == subst_m(m, t2)
}

/// Some substitution makes the two terms syntactically identical.
pub open spec fn unifiable(t1: TermM, t2: TermM) -> bool {
    exists|m: SubstM| unifies(m, t1, t2)
}

/// `m` is at least as general as every unifier `sig` of the two terms:
/// applying `m` first never loses anything that `sig` could still do.
pub open spec fn most_general(m: SubstM, t1: TermM, t2: TermM) -> bool {
    forall|sig: SubstM, u: TermM|
        unifies(sig, t1, t2) ==> subst_m(sig, u) == #[trigger] subst_m(sig, subst_m(m, u))
}

/// A well-formed (idempotent) substitution: no bound variable occurs in
/// any bound value.
pub open spec fn wf_sub(m: SubstM) -> bool {
    &&& m.dom().finite()
    &&& forall|k: Seq<char>, x: Seq<char>|
        m.dom().contains(k) && m.dom().contains(x) ==> !(#[trigger] has_var_m(m[k], x))
}

/// All variables a substitution mentions: its keys and the variables of
/// its values.
pub open spec fn sub_vars(m: SubstM) -> Set<Seq<char>> {
    m.dom().union(
        Set::new(
            |x: Seq<char>|
                exists|k: Seq<char>| m.dom().contains(k) && has_var_m(#[trigger] m[k], x),
        ),
    )
}

/// The name of a variable term (the empty name on other terms).
pub open spec fn var_name_of(t: TermM) -> Seq<char> {
    match t {
        TermM::Var { name } => name,
        _ => Seq::empty(),
    }
}

/// The set of variables occurring in a term.
pub open spec fn var_set(t: TermM) -> Set<Seq<char>> {
    Set::new(|x: Seq<char>| has_var_m(t, x))
}

/// Structural size of a term; every term has positive size.
pub open spec fn term_size(t: TermM) -> nat
    decreases t,
{
    match t {
        TermM::Var { .. } => 1,
        TermM::Num { .. } => 1,
        TermM::Ctr { name: _, args } => 1 + args_size(args),
    }
}

/// Total size of a sequence of terms.
pub open spec fn args_size(s: Seq<TermM>) -> nat
    decreases s,
{
    if s.len() == 0 {
        0
    } else {
        term_size(s[0]) + args_size(s.subrange(1, s.len() as int))
    }
}

/// Applying the empty substitution changes nothing.
pub proof fn lemma_subst_empty(t: TermM)
    ensures
        subst_m(Map::empty(), t) == t,
    decreases t,
{
    broadcast use lemma_subst_args_index;

    match t {
        TermM::Var { name } => {
            assert(!Map::<Seq<char>, TermM>::empty().dom().contains(name));
        },
        TermM::Num { .. } => {},
        TermM::Ctr { name, args } => {
            assert forall|i: int| 0 <= i < args.len() implies #[trigger] subst_m(
                Map::empty(),
                args[i],
            ) == args[i] by {
                lemma_subst_empty(args[i]);
            }
            assert(subst_args(Map::empty(), args) =~= args);
        },
    }
}

/// Applying a composition is applying the two parts in sequence.  On a
/// key collision `compose_m` keeps `b`'s binding, so the law is stated
/// for the collision-free compositions the unifier builds.
pub proof fn lemma_compose_apply(a: SubstM, b: SubstM, t: TermM)
    requires
        a.dom().disjoint(b.dom()),
    ensures
        subst_m(compose_m(a, b), t) == subst_m(b, subst_m(a, t)),
    decreases t,
{
    broadcast use lemma_subst_args_index;

    match t {
        TermM::Var { name } => {},
        TermM::Num { .. } => {},
        TermM::Ctr { name, args } => {
            let mapped = subst_args(a, args);
            assert forall|i: int| 0 <= i < args.len() implies subst_args(compose_m(a, b), args)[i]
                == subst_args(b, mapped)[i] by {
                lemma_compose_apply(a, b, args[i]);
                assert(mapped[i] == subst_m(a, args[i]));
                assert(subst_args(b, mapped)[i] == subst_m(b, mapped[i]));
                assert(subst_args(compose_m(a, b), args)[i] == subst_m(compose_m(a, b), args[i]));
            }
            assert(subst_args(compose_m(a, b), args) =~= subst_args(b, mapped));
        },
    }
}

/// A substitution that binds no variable of `t` leaves `t` unchanged.
pub proof fn lemma_subst_untouched(m: SubstM, t: TermM)
    requires
        forall|x: Seq<char>| has_var_m(t, x) ==> !m.dom().contains(x),
    ensures
        subst_m(m, t) == t,
    decreases t,
{
    broadcast use lemma_subst_args_index;

    match t {
        TermM::Var { name } => {
            assert(has_var_m(t, name));
        },
        TermM::Num { .. } => {},
        TermM::Ctr { name, args } => {
            assert forall|i: int| 0 <= i < args.len() implies #[trigger] subst_m(m, args[i])
                == args[i] by {
                assert forall|x: Seq<char>| has_var_m(args[i], x) implies !m.dom().contains(x) by {
                    assert(has_var_m(t, x));
                }
                lemma_subst_untouched(m, args[i]);
            }
            assert(subst_args(m, args) =~= args);
        },
    }
}

/// If `sig` already identifies `Var(x)` with `v`, then first binding
/// `x` to `v` and then applying `sig` is the same as applying `sig` alone.
pub proof fn lemma_single_absorb(sig: SubstM, x: Seq<char>, v: TermM, u: TermM)
    requires
        subst_m(sig, TermM::Var { name: x }) == subst_m(sig, v),
    ensures
        subst_m(sig, subst_m(Map::empty().insert(x, v), u)) == subst_m(sig, u),
    decreases u,
{
    broadcast use lemma_subst_args_index;

    let single = Map::<Seq<char>, TermM>::empty().insert(x, v);
    match u {
        TermM::Var { name } => {
            if name == x {
                assert(subst_m(single, u) == v);
            } else {
                assert(!single.dom().contains(name));
            }
        },
        TermM::Num { .. } => {},
        TermM::Ctr { name, args } => {
            assert forall|i: int| 0 <= i < args.len() implies subst_m(
                sig,
                #[trigger] subst_m(single, args[i]),
            ) == subst_m(sig, args[i]) by {
                lemma_single_absorb(sig, x, v, args[i]);
            }
            let mapped = subst_args(single, args);
            assert forall|i: int| 0 <= i < args.len() implies subst_args(sig, mapped)[i]
                == subst_args(sig, args)[i] by {
                assert(mapped[i] == subst_m(single, args[i]));
                assert(subst_args(sig, mapped)[i] == subst_m(sig, mapped[i]));
                assert(subst_args(sig, args)[i] == subst_m(sig, args[i]));
            }
            assert(subst_args(sig, mapped) =~= subst_args(sig, args));
        },
    }
}

/// The size of any sequence of terms dominates the size of each element.
pub proof fn lemma_args_size_ge(s: Seq<TermM>, i: int)
    requires
        0 <= i < s.len(),
    ensures
        args_size(s) >= term_size(s[i]),
    decreases s.len(),
{
    if i == 0 {
    } else {
        lemma_args_size_ge(s.subrange(1, s.len() as int), i - 1);
        assert(s.subrange(1, s.len() as int)[i - 1] == s[i]);
    }
}

/// If `x` occurs in `t`, applying any substitution to `t` yields a term at
/// least as large as what that substitution makes of `Var(x)`; strictly
/// larger when `t` is a compound term.
pub proof fn lemma_subst_size(sig: SubstM, t: TermM, x: Seq<char>)
    requires
        has_var_m(t, x),
    ensures
        term_size(subst_m(sig, t)) >= term_size(subst_m(sig, TermM::Var { name: x })),
        (t matches TermM::Ctr { .. }) ==> term_size(subst_m(sig, t)) > term_size(
            subst_m(sig, TermM::Var { name: x }),
        ),
    decreases t,
{
    broadcast use lemma_subst_args_index;

    match t {
        TermM::Var { name } => {},
        TermM::Num { .. } => {},
        TermM::Ctr { name, args } => {
            let i = choose|i: int| 0 <= i < args.len() && has_var_m(#[trigger] args[i], x);
            lemma_subst_size(sig, args[i], x);
            let mapped = subst_args(sig, args);
            lemma_args_size_ge(mapped, i);
            assert(mapped[i] == subst_m(sig, args[i]));
            assert(term_size(subst_m(sig, t)) == 1 + args_size(mapped));
        },
    }
}

/// A variable of `subst_m(m, t)` is a variable of `t` that `m` does not
/// bind, or a variable of one of `m`'s values bound at a variable of `t`.
pub proof fn lemma_subst_vars(m: SubstM, t: TermM, z: Seq<char>)
    requires
        has_var_m(subst_m(m, t), z),
    ensures
        (has_var_m(t, z) && !m.dom().contains(z)) || (exists|k: Seq<char>|
            m.dom().contains(k) && has_var_m(t, k) && has_var_m(#[trigger] m[k], z)),
    decreases t,
{
    broadcast use lemma_subst_args_index;

    match t {
        TermM::Var { name } => {
            if m.dom().contains(name) {
                assert(m.dom().contains(name) && has_var_m(t, name) && has_var_m(m[name], z));
            }
        },
        TermM::Num { .. } => {},
        TermM::Ctr { name, args } => {
            let mapped = subst_args(m, args);
            let i = choose|i: int| 0 <= i < mapped.len() && has_var_m(#[trigger] mapped[i], z);
            assert(mapped[i] == subst_m(m, args[i]));
            lemma_subst_vars(m, args[i], z);
            if has_var_m(args[i], z) && !m.dom().contains(z) {
                assert(has_var_m(t, z));
            } else {
                let k = choose|k: Seq<char>|
                    m.dom().contains(k) && has_var_m(args[i], k) && has_var_m(#[trigger] m[k], z);
                assert(has_var_m(t, k));
            }
        },
    }
}

/// The variable set of every term is finite.
pub proof fn lemma_var_set_finite(t: TermM)
    ensures
        var_set(t).finite(),
    decreases t,
{
    match t {
        TermM::Var { name } => {
            assert(var_set(t) =~= Set::empty().insert(name));
        },
        TermM::Num { .. } => {
            assert(var_set(t) =~= Set::<Seq<char>>::empty());
        },
        TermM::Ctr { name, args } => {
            lemma_args_var_set_finite(args);
            assert(var_set(t) =~= args_var_set(args)) by {
                assert forall|x: Seq<char>| has_var_m(t, x) implies args_var_set(args).contains(
                    x,
                ) by {
                    let i = choose|i: int| 0 <= i < args.len() && has_var_m(#[trigger] args[i], x);
                    lemma_args_var_set_contains(args, i, x);
                }
                assert forall|x: Seq<char>| args_var_set(args).contains(x) implies has_var_m(
                    t,
                    x,
                ) by {
                    lemma_args_var_set_member(args, x);
                }
            }
        },
    }
}

/// Union of the variable sets of a sequence of terms.
pub open spec fn args_var_set(s: Seq<TermM>) -> Set<Seq<char>>
    decreases s,
{
    if s.len() == 0 {
        Set::empty()
    } else {
        var_set(s[0]).union(args_var_set(s.subrange(1, s.len() as int)))
    }
}

proof fn lemma_args_var_set_finite(s: Seq<TermM>)
    ensures
        args_var_set(s).finite(),
    decreases s,
{
    if s.len() == 0 {
    } else {
        lemma_var_set_finite(s[0]);
        lemma_args_var_set_finite(s.subrange(1, s.len() as int));
    }
}

proof fn lemma_args_var_set_contains(s: Seq<TermM>, i: int, x: Seq<char>)
    requires
        0 <= i < s.len(),
        has_var_m(s[i], x),
    ensures
        args_var_set(s).contains(x),
    decreases s.len(),
{
    if i == 0 {
        assert(var_set(s[0]).contains(x));
    } else {
        lemma_args_var_set_contains(s.subrange(1, s.len() as int), i - 1, x);
        assert(s.subrange(1, s.len() as int)[i - 1] == s[i]);
    }
}

/// Append to `l1` the members of `l2` it does not already hold, keeping
/// first-seen order.
pub open spec fn seq_union(l1: Seq<Seq<char>>, l2: Seq<Seq<char>>) -> Seq<Seq<char>>
    decreases l2,
{
    if l2.len() == 0 {
        l1
    } else {
        let l1b = if l1.contains(l2[0]) {
            l1
        } else {
            l1.push(l2[0])
        };
        seq_union(l1b, l2.subrange(1, l2.len() as int))
    }
}

/// The variable names of a term, in first-seen order, without duplicates.
pub open spec fn term_vars(t: TermM) -> Seq<Seq<char>>
    decreases t,
{
    match t {
        TermM::Num { .. } => Seq::empty(),
        TermM::Var { name } => seq![name],
        TermM::Ctr { name: _, args } => terms_vars_from(Seq::empty(), args),
    }
}

/// Fold the variable lists of a sequence of terms into an accumulator,
/// left to right.
pub open spec fn terms_vars_from(acc: Seq<Seq<char>>, s: Seq<TermM>) -> Seq<Seq<char>>
    decreases s,
{
    if s.len() == 0 {
        acc
    } else {
        terms_vars_from(seq_union(acc, term_vars(s[0])), s.subrange(1, s.len() as int))
    }
}

/// The outcome of arithmetic simplification: a reduced term, a term that
/// is no numeric expression, or an arithmetic fault (overflow, underflow,
/// division by zero).
pub enum SimpM {
    Val(TermM),
    NotNum,
    Arith,
}

/// Is the functor name a recognized arithmetic operator?
pub open spec fn is_op_m(name: Seq<char>) -> bool {
    name == "+"@ || name == "-"@ || name == "*"@ || name == "/"@
}

/// The result of one arithmetic operation over unsigned values.
pub open spec fn arith_m(name: Seq<char>, a: u32, b: u32) -> SimpM {
    if name == "+"@ {
        if a + b <= u32::MAX {
            SimpM::Val(TermM::Num { val: (a + b) as u32 })
        } else {
            SimpM::Arith
        }
    } else if name == "-"@ {
        if a >= b {
            SimpM::Val(TermM::Num { val: (a - b) as u32 })
        } else {
            SimpM::Arith
        }
    } else if name == "*"@ {
        if a * b <= u32::MAX {
            SimpM::Val(TermM::Num { val: (a * b) as u32 })
        } else {
            SimpM::Arith
        }
    } else {
        if b == 0 {
            SimpM::Arith
        } else {
            SimpM::Val(TermM::Num { val: a / b })
        }
    }
}

/// Arithmetic simplification: a compound term with an operator functor
/// and exactly two operands that both reduce to numbers is reduced to a
/// number; every other term is returned unchanged, except that an
/// operator applied to a non-numeric operand or with the wrong arity is
/// no numeric expression.
pub open spec fn simp_m(t: TermM) -> SimpM
    decreases t,
{
    match t {
        TermM::Ctr { name, args } => {
            if is_op_m(name) {
                if args.len() == 2 {
                    match simp_m(args[0]) {
                        SimpM::Val(vx) => match simp_m(args[1]) {
                            SimpM::Val(vy) => match (vx, vy) {
                                (TermM::Num { val: a }, TermM::Num { val: b }) => arith_m(
                                    name,
                                    a,
                                    b,
                                ),
                                _ => SimpM::NotNum,
                            },
                            e => e,
                        },
                        e => e,
                    }
                } else {
                    SimpM::NotNum
                }
            } else {
                SimpM::Val(t)
            }
        },
        _ => SimpM::Val(t),
    }
}

proof fn lemma_args_var_set_member(s: Seq<TermM>, x: Seq<char>)
    requires
        args_var_set(s).contains(x),
    ensures
        exists|i: int| 0 <= i < s.len() && has_var_m(#[trigger] s[i], x),
    decreases s.len(),
{
    if s.len() == 0 {
    } else if var_set(s[0]).contains(x) {
        assert(has_var_m(s[0], x));
    } else {
        lemma_args_var_set_member(s.subrange(1, s.len() as int), x);
        let i = choose|i: int|
            0 <= i < s.len() - 1 && has_var_m(#[trigger] s.subrange(1, s.len() as int)[i], x);
        assert(s.subrange(1, s.len() as int)[i] == s[i + 1]);
    }
}

} // verus!
