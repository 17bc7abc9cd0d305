//! Trusted declarations for the persistent collections of the `im_rc`
//! crate that back substitutions and variable lists.  Each wrapper's
//! contract states, over the two contents names, what the crate's own
//! source shows of the method it calls.

use vstd::prelude::*;

use crate::ast::Term;
use crate::model::TermM;

verus! {

#[verifier::external_type_specification]
#[verifier::external_body]
#[verifier::reject_recursive_types(K)]
#[verifier::reject_recursive_types(V)]
#[verifier::reject_recursive_types(S)]
pub struct ExImHashMap<K, V, S>(im_rc::HashMap<K, V, S>);

#[verifier::external_type_specification]
#[verifier::external_body]
#[verifier::reject_recursive_types(A)]
pub struct ExImVector<A>(im_rc::Vector<A>);

/// The bindings a persistent hash map holds, as a map from variable
/// names to term models.
pub uninterp spec fn hm_contents(m: im_rc::HashMap<String, Term>) -> Map<Seq<char>, TermM>;

/// The elements a persistent vector of names holds, in order.
pub uninterp spec fn vec_contents(v: im_rc::Vector<String>) -> Seq<Seq<char>>;

/// Relies on im_rc::HashMap::new: constructs the empty map.
#[verifier::external_body]
pub(crate) fn hm_new() -> (r: im_rc::HashMap<String, Term>)
    ensures
        forall|k: Seq<char>| !hm_contents(r).dom().contains(k),
{
    im_rc::HashMap::new()
}

/// Relies on im_rc::HashMap::clone: an identical copy sharing structure.
#[verifier::external_body]
pub(crate) fn hm_clone(m: &im_rc::HashMap<String, Term>) -> (r: im_rc::HashMap<String, Term>)
    ensures
        hm_contents(r) == hm_contents(*m),
{
    m.clone()
}

/// Relies on im_rc::HashMap::insert: adds or replaces the binding of the key.
#[verifier::external_body]
pub(crate) fn hm_insert(m: &mut im_rc::HashMap<String, Term>, k: String, v: Term)
    ensures
        hm_contents(*final(m)) == hm_contents(*old(m)).insert(k@, v@),
{
    m.insert(k, v);
}

/// Relies on im_rc::HashMap::get: returns the value bound to the key, if any.
#[verifier::external_body]
pub(crate) fn hm_get(m: &im_rc::HashMap<String, Term>, k: &String) -> (r: Option<Term>)
    ensures
        r is Some <==> hm_contents(*m).dom().contains(k@),
        r matches Some(t) ==> t@ == hm_contents(*m)[k@],
{
    m.get(k).cloned()
}

/// Relies on im_rc::HashMap::contains_key: whether the key is bound.
#[verifier::external_body]
pub(crate) fn hm_contains(m: &im_rc::HashMap<String, Term>, k: &String) -> (r: bool)
    ensures
        r == hm_contents(*m).dom().contains(k@),
{
    m.contains_key(k)
}

/// Relies on im_rc::HashMap::iter: visits each binding exactly once, in
/// no fixed order.
#[verifier::external_body]
pub(crate) fn hm_entries(m: &im_rc::HashMap<String, Term>) -> (r: Vec<(String, Term)>)
    ensures
        forall|i: int, j: int| 0 <= i < j < r@.len() ==> r@[i].0@ != r@[j].0@,
        forall|i: int|
            0 <= i < r@.len() ==> hm_contents(*m).dom().contains(#[trigger] r@[i].0@)
                && r@[i].1@ == hm_contents(*m)[r@[i].0@],
        forall|k: Seq<char>|
            hm_contents(*m).dom().contains(k) ==> exists|i: int|
                0 <= i < r@.len() && #[trigger] r@[i].0@ == k,
{
    m.iter().map(|(k, v)| (k.clone(), v.clone())).collect()
}

/// Relies on im_rc::Vector::new: constructs the empty vector.
#[verifier::external_body]
pub(crate) fn vec_new() -> (v: im_rc::Vector<String>)
    ensures
        vec_contents(v).len() == 0,
{
    im_rc::Vector::new()
}

/// Relies on im_rc::Vector::push_back: appends one element at the end.
#[verifier::external_body]
pub(crate) fn vec_push_back(v: &mut im_rc::Vector<String>, x: String)
    ensures
        vec_contents(*final(v)) == vec_contents(*old(v)).push(x@),
{
    v.push_back(x);
}

/// Relies on im_rc::Vector::len: the number of elements.
#[verifier::external_body]
pub(crate) fn vec_len(v: &im_rc::Vector<String>) -> (n: usize)
    ensures
        n == vec_contents(*v).len(),
{
    v.len()
}

/// Relies on im_rc::Vector::get: the element at the index.
#[verifier::external_body]
pub(crate) fn vec_get(v: &im_rc::Vector<String>, i: usize) -> (r: String)
    requires
        i < vec_contents(*v).len(),
    ensures
        r@ == vec_contents(*v)[i as int],
{
    v.get(i).unwrap().clone()
}

/// Relies on im_rc::Vector::contains: whether some element equals `x`.
#[verifier::external_body]
pub(crate) fn vec_contains(v: &im_rc::Vector<String>, x: &String) -> (r: bool)
    ensures
        r == vec_contents(*v).contains(x@),
{
    v.contains(x)
}

} // verus!
