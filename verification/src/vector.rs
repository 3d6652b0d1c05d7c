use vstd::prelude::*;

verus! {

#[verifier::external_type_specification]
#[verifier::external_body]
#[verifier::reject_recursive_types(A)]
pub struct ExVector<A>(im::Vector<A>);

/// The strings that an `im::Vector` holds, in order.
pub uninterp spec fn vector_items(v: im::Vector<String>) -> Seq<Seq<char>>;

/// `im::Vector::new`: a vector that holds nothing.
#[verifier::external_body]
pub(crate) fn vector_new() -> (r: im::Vector<String>)
    ensures
        vector_items(r) == Seq::<Seq<char>>::empty(),
{
    im::Vector::new()
}

/// `im::Vector::clone`: a vector that holds the same strings.
#[verifier::external_body]
pub(crate) fn vector_clone(v: &im::Vector<String>) -> (r: im::Vector<String>)
    ensures
        vector_items(r) == vector_items(*v),
{
    v.clone()
}

/// `im::Vector::push_back`: appends `s` at the end.
#[verifier::external_body]
pub(crate) fn vector_push_back(v: &mut im::Vector<String>, s: String)
    ensures
        vector_items(*final(v)) == vector_items(*old(v)).push(s@),
{
    v.push_back(s)
}

/// `im::Vector::len`: the number of strings held.
#[verifier::external_body]
pub(crate) fn vector_len(v: &im::Vector<String>) -> (r: usize)
    ensures
        r == vector_items(*v).len(),
{
    v.len()
}

/// `im::Vector::get`: the string at `i`, if `i` is below the length.
#[verifier::external_body]
pub(crate) fn vector_get(v: &im::Vector<String>, i: usize) -> (r: Option<&String>)
    ensures
        i < vector_items(*v).len() ==> r is Some && r->0@ == vector_items(*v)[i as int],
        i >= vector_items(*v).len() ==> r is None,
{
    v.get(i)
}

} // verus!
