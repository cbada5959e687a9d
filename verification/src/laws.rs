use vstd::prelude::*;

use crate::axial::{
    axial_add, axial_min, axial_sub, key_le_fn, lemma_key_le_total_ordering, Axial,
};
use crate::cells::{min_cells, place_canon, shape_canon, translate_spec};

verus! {

/// A coordinate far enough from the integer limits that the sums
/// taken while canonicalizing cannot wrap.
pub open spec fn cell_in_bounds(c: Axial) -> bool {
    &&& -0x2000_0000 <= c.0 < 0x2000_0000
    &&& -0x2000_0000 <= c.1 < 0x2000_0000
}

/// Place-canonicalizing is idempotent: canonicalizing an already
/// place-canonical cell set yields an identical result.
pub proof fn lemma_place_canon_idempotent(s: Seq<Axial>)
    ensures
        place_canon(place_canon(s)) == place_canon(s),
{
    let leq = key_le_fn();
    lemma_key_le_total_ordering();
    s.lemma_sort_by_ensures(leq);
    place_canon(s).lemma_sort_by_ensures(leq);
    vstd::seq_lib::lemma_sorted_unique(place_canon(place_canon(s)), place_canon(s), leq);
}

/// Place-canonicalizing is order-invariant: any two orderings of the
/// same cells canonicalize to identical results.
pub proof fn lemma_place_canon_order_invariant(a: Seq<Axial>, b: Seq<Axial>)
    requires
        a.to_multiset() == b.to_multiset(),
    ensures
        place_canon(a) == place_canon(b),
{
    let leq = key_le_fn();
    lemma_key_le_total_ordering();
    a.lemma_sort_by_ensures(leq);
    b.lemma_sort_by_ensures(leq);
    vstd::seq_lib::lemma_sorted_unique(place_canon(a), place_canon(b), leq);
}

/// Wrapping translation cancels inside a wrapping difference.
proof fn lemma_wrap_sub_cancel(c: Axial, m: Axial, o: Axial)
    ensures
        axial_sub(axial_add(c, o), axial_add(m, o)) == axial_sub(c, m),
{
}

/// The minimum of a nonempty bounded cell set is itself bounded.
proof fn lemma_min_cells_bounded(s: Seq<Axial>)
    requires
        s.len() > 0,
        forall|i: int| 0 <= i < s.len() ==> cell_in_bounds(#[trigger] s[i]),
    ensures
        cell_in_bounds(min_cells(s)),
    decreases s.len(),
{
    if s.len() == 1 {
        assert(min_cells(s) == axial_min(min_cells(s.drop_last()), s.last()));
        assert(s.drop_last().len() == 0);
    } else {
        lemma_min_cells_bounded(s.drop_last());
    }
}

/// Translating a nonempty bounded cell set translates its minimum.
proof fn lemma_min_cells_translate(s: Seq<Axial>, o: Axial)
    requires
        s.len() > 0,
        forall|i: int| 0 <= i < s.len() ==> cell_in_bounds(#[trigger] s[i]),
        cell_in_bounds(o),
    ensures
        min_cells(translate_spec(s, o)) == axial_add(min_cells(s), o),
    decreases s.len(),
{
    let t = translate_spec(s, o);
    assert(t.drop_last() =~= translate_spec(s.drop_last(), o));
    assert(t.last() == axial_add(s.last(), o));
    if s.len() == 1 {
        assert(s.drop_last().len() == 0);
        assert(t.drop_last().len() == 0);
        assert(min_cells(t.drop_last()) == Axial(i32::MAX, i32::MAX));
        assert(min_cells(s.drop_last()) == Axial(i32::MAX, i32::MAX));
        assert(min_cells(t) == axial_min(Axial(i32::MAX, i32::MAX), t.last()));
        assert(min_cells(s) == axial_min(Axial(i32::MAX, i32::MAX), s.last()));
    } else {
        lemma_min_cells_translate(s.drop_last(), o);
        lemma_min_cells_bounded(s.drop_last());
        assert(min_cells(t) == axial_min(axial_add(min_cells(s.drop_last()), o), t.last()));
        assert(axial_min(axial_add(min_cells(s.drop_last()), o), axial_add(s.last(), o))
            == axial_add(axial_min(min_cells(s.drop_last()), s.last()), o));
    }
}

/// Shape-canonical equality is invariant under translation:
/// canonicalizing a cell set and the same cell set translated by any
/// in-bounds offset yields identical results.
pub proof fn lemma_shape_canon_translation_invariant(s: Seq<Axial>, offset: Axial)
    requires
        forall|i: int| 0 <= i < s.len() ==> cell_in_bounds(#[trigger] s[i]),
        cell_in_bounds(offset),
    ensures
        shape_canon(translate_spec(s, offset)) == shape_canon(s),
{
    let t = translate_spec(s, offset);
    if s.len() == 0 {
        assert(t =~= s);
    } else {
        lemma_min_cells_translate(s, offset);
        let mt = min_cells(t);
        let ms = min_cells(s);
        assert forall|i: int| 0 <= i < t.len() implies #[trigger] axial_sub(t[i], mt) == axial_sub(
            s[i],
            ms,
        ) by {
            lemma_wrap_sub_cancel(s[i], ms, offset);
        }
        assert(t.map_values(|c: Axial| axial_sub(c, min_cells(t))) =~= s.map_values(
            |c: Axial| axial_sub(c, min_cells(s)),
        ));
    }
}

} // verus!
