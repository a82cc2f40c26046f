use vstd::prelude::*;
use indexmap::IndexSet;

verus! {

#[verifier::external_type_specification]
#[verifier::external_body]
#[verifier::reject_recursive_types(T)]
#[verifier::reject_recursive_types(S)]
pub struct ExIndexSet<T, S>(IndexSet<T, S>);

/// What an insertion-ordered set of positions holds, in the order of first insertion.
pub uninterp spec fn set_items(s: IndexSet<usize>) -> Seq<usize>;

/// `s` after inserting `x`: unchanged when `x` is already there, else `x` at the end.
pub open spec fn insert_new(s: Seq<usize>, x: usize) -> Seq<usize> {
    if s.contains(x) {
        s
    } else {
        s.push(x)
    }
}

/// Relies on `IndexSet::new`: a new set holds nothing.
#[verifier::external_body]
pub(crate) fn new_set() -> (r: IndexSet<usize>)
    ensures
        set_items(r) == Seq::<usize>::empty(),
{
    IndexSet::new()
}

/// Relies on `IndexSet::insert`: an item already present stays where it is and
/// `false` comes back; a new one goes to the end and `true` comes back.
#[verifier::external_body]
pub(crate) fn set_insert(s: &mut IndexSet<usize>, x: usize) -> (r: bool)
    ensures
        r == !set_items(*old(s)).contains(x),
        set_items(*final(s)) == insert_new(set_items(*old(s)), x),
{
    s.insert(x)
}

/// Relies on `IndexSet::iter`: the items in their order.
#[verifier::external_body]
pub(crate) fn set_to_vec(s: &IndexSet<usize>) -> (r: Vec<usize>)
    ensures
        r@ == set_items(*s),
{
    s.iter().copied().collect()
}

} // verus!
