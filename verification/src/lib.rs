//! The term representation, substitution algebra, unification algorithm
//! and arithmetic simplifier at the heart of a Prolog-style
//! logic-programming engine.

pub mod ast;
pub mod imrc;
pub mod laws;
pub mod mgu;
pub mod model;

pub use ast::{
    combine, is_op, term_eq, Atom, Body, Clause, Goal, Head, Program, Subst, Substitution, Term,
    Vars,
};
pub use mgu::UnificationError;
