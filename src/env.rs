use vstd::prelude::*;
use im_rc::Vector;
use crate::symbol_table::SymbolId;

verus! {

#[verifier::external_type_specification]
#[verifier::external_body]
#[verifier::reject_recursive_types(A)]
pub struct ExVector<A>(Vector<A>);

/// The bindings held by a lexical environment, oldest first.
pub uninterp spec fn env_items(v: Vector<(String, SymbolId)>) -> Seq<(Seq<char>, SymbolId)>;

/// Relies on `im_rc::Vector::new`: a new vector is empty.
#[verifier::external_body]
pub(crate) fn env_new() -> (r: Vector<(String, SymbolId)>)
    ensures
        env_items(r) == Seq::<(Seq<char>, SymbolId)>::empty(),
{
    Vector::new()
}

/// Relies on `im_rc::Vector::clone`: the copy holds the same items and shares
/// their storage.
#[verifier::external_body]
pub(crate) fn env_clone(v: &Vector<(String, SymbolId)>) -> (r: Vector<(String, SymbolId)>)
    ensures
        env_items(r) == env_items(*v),
{
    v.clone()
}

/// Relies on `im_rc::Vector::push_back`: the item is appended at the end.
#[verifier::external_body]
pub(crate) fn env_push(v: &mut Vector<(String, SymbolId)>, item: (String, SymbolId))
    ensures
        env_items(*final(v)) == env_items(*old(v)).push((item.0@, item.1)),
{
    v.push_back(item)
}

/// Relies on `im_rc::Vector::len`: the number of items.
#[verifier::external_body]
pub(crate) fn env_len(v: &Vector<(String, SymbolId)>) -> (r: usize)
    ensures
        r == env_items(*v).len(),
{
    v.len()
}

/// Relies on indexing an `im_rc::Vector`: the item at position `i`.
#[verifier::external_body]
pub(crate) fn env_get(v: &Vector<(String, SymbolId)>, i: usize) -> (r: &(String, SymbolId))
    requires
        i < env_items(*v).len(),
    ensures
        (r.0@, r.1) == env_items(*v)[i as int],
{
    &v[i]
}

} // verus!
