use vstd::prelude::*;

use crate::axial::Axial;
use crate::orient::pieces_view;

verus! {

/// The order-preserving deduplicating collection that holds the found
/// solutions, from the indexmap crate.
#[verifier::external_type_specification]
#[verifier::external_body]
#[verifier::reject_recursive_types(T)]
#[verifier::reject_recursive_types(S)]
pub struct ExIndexSet<T, S>(indexmap::IndexSet<T, S>);

/// What a solution set holds: the cell sequences of its solutions, in
/// insertion order.
pub uninterp spec fn solutions_seq(
    s: indexmap::IndexSet<Vec<Vec<Axial>>, std::collections::hash_map::RandomState>,
) -> Seq<Seq<Seq<Axial>>>;

/// The cell sequences of a list of solutions.
pub open spec fn solutions_list_view(v: Seq<Vec<Vec<Axial>>>) -> Seq<Seq<Seq<Axial>>> {
    v.map_values(|sol: Vec<Vec<Axial>>| pieces_view(sol@))
}

/// Relies on indexmap's `IndexSet::new`: a fresh set is empty.
#[verifier::external_body]
pub fn solutions_new() -> (r: indexmap::IndexSet<Vec<Vec<Axial>>>)
    ensures
        solutions_seq(r) == Seq::<Seq<Seq<Axial>>>::empty(),
{
    indexmap::IndexSet::new()
}

/// Relies on indexmap's `IndexSet::insert`: a value equal to a held
/// one leaves the set unchanged and returns false; a new value is
/// appended after every held one and returns true. Equality on
/// solutions is element-wise equality of their cells, which is
/// exactly equality of the cell sequences.
#[verifier::external_body]
pub fn solutions_insert(
    s: &mut indexmap::IndexSet<Vec<Vec<Axial>>>,
    v: Vec<Vec<Axial>>,
) -> (r: bool)
    ensures
        r == !solutions_seq(*old(s)).contains(pieces_view(v@)),
        solutions_seq(*final(s)) == if r {
            solutions_seq(*old(s)).push(pieces_view(v@))
        } else {
            solutions_seq(*old(s))
        },
{
    s.insert(v)
}

/// Relies on indexmap's `IndexSet::len`: the number of held values.
#[verifier::external_body]
pub fn solutions_len(s: &indexmap::IndexSet<Vec<Vec<Axial>>>) -> (r: usize)
    ensures
        r == solutions_seq(*s).len(),
{
    s.len()
}

/// Relies on indexmap's `IndexSet` iteration: the held values come
/// out in insertion order.
#[verifier::external_body]
pub fn solutions_to_vec(s: &indexmap::IndexSet<Vec<Vec<Axial>>>) -> (r: Vec<Vec<Vec<Axial>>>)
    ensures
        solutions_list_view(r@) == solutions_seq(*s),
{
    s.iter().cloned().collect()
}

} // verus!
