use vstd::prelude::*;

use crate::axial::Axial;
use crate::cells::{
    canonicalize_shape, flip, flip_cells_spec, rotate, rotate_cells_spec, shape_canon,
};

verus! {

/// The cell sequences of a list of pieces.
pub open spec fn pieces_view(v: Seq<Vec<Axial>>) -> Seq<Seq<Axial>> {
    v.map_values(|p: Vec<Axial>| p@)
}

/// The `i`-th entry of the orientation sweep that starts from the
/// shape-canonical piece `p0`: each step rotates the previous entry
/// 60 degrees and re-canonicalizes, except the seventh, which reflects
/// it, starting the mirrored rotation sweep.
pub open spec fn orient_chain(p0: Seq<Axial>, i: int) -> Seq<Axial>
    decreases i,
{
    if i <= 0 {
        p0
    } else if i == 7 {
        shape_canon(flip_cells_spec(orient_chain(p0, i - 1)))
    } else {
        shape_canon(rotate_cells_spec(orient_chain(p0, i - 1)))
    }
}

/// The full orientation sweep of a shape-canonical piece: the piece
/// itself, its six successive rotations, the reflection, and the
/// reflection's six successive rotations, each entry shape-canonical.
pub open spec fn orient_sweep(p0: Seq<Axial>) -> Seq<Seq<Axial>> {
    Seq::new(14, |i: int| orient_chain(p0, i))
}

/// The subsequence of first occurrences: every entry of `s`, keeping
/// only the first of equal entries, in order.
pub open spec fn dedup_first(s: Seq<Seq<Axial>>) -> Seq<Seq<Axial>>
    decreases s.len(),
{
    if s.len() == 0 {
        Seq::empty()
    } else {
        let rest = dedup_first(s.drop_last());
        if rest.contains(s.last()) {
            rest
        } else {
            rest.push(s.last())
        }
    }
}

/// Deduplicating a nonempty sequence leaves at least one entry.
pub proof fn lemma_dedup_first_nonempty(s: Seq<Seq<Axial>>)
    requires
        s.len() > 0,
    ensures
        dedup_first(s).len() > 0,
    decreases s.len(),
{
    if s.len() > 1 {
        lemma_dedup_first_nonempty(s.drop_last());
    }
}

/// Every entry of the deduplicated sequence is an entry of the
/// original.
pub proof fn lemma_dedup_first_element_of(s: Seq<Seq<Axial>>, k: int)
    requires
        0 <= k < dedup_first(s).len(),
    ensures
        exists|j: int| 0 <= j < s.len() && s[j] == dedup_first(s)[k],
    decreases s.len(),
{
    if s.len() > 0 {
        let rest = dedup_first(s.drop_last());
        if rest.contains(s.last()) || k < rest.len() {
            lemma_dedup_first_element_of(s.drop_last(), k);
            let j = choose|j: int|
                0 <= j < s.drop_last().len() && s.drop_last()[j] == dedup_first(s.drop_last())[k];
            assert(s[j] == dedup_first(s)[k]);
        } else {
            assert(dedup_first(s)[k] == s.last());
            assert(s[s.len() - 1] == dedup_first(s)[k]);
        }
    }
}

/// Every entry of the orientation sweep has the cell count of its
/// starting piece.
pub proof fn lemma_orient_chain_len(p0: Seq<Axial>, i: int)
    ensures
        orient_chain(p0, i).len() == p0.len(),
    decreases i,
{
    if i > 0 {
        lemma_orient_chain_len(p0, i - 1);
        if i == 7 {
            crate::cells::lemma_shape_canon_len(flip_cells_spec(orient_chain(p0, i - 1)));
        } else {
            crate::cells::lemma_shape_canon_len(rotate_cells_spec(orient_chain(p0, i - 1)));
        }
    }
}

/// Every orientation of a piece has the piece's own cell count.
pub proof fn lemma_orientation_lengths(piece: Seq<Axial>, k: int)
    requires
        0 <= k < dedup_first(orient_sweep(shape_canon(piece))).len(),
    ensures
        dedup_first(orient_sweep(shape_canon(piece)))[k].len() == piece.len(),
{
    let p0 = shape_canon(piece);
    crate::cells::lemma_shape_canon_len(piece);
    lemma_dedup_first_element_of(orient_sweep(p0), k);
    let j = choose|j: int|
        0 <= j < orient_sweep(p0).len() && orient_sweep(p0)[j] == dedup_first(orient_sweep(p0))[k];
    lemma_orient_chain_len(p0, j);
}

/// Deduplicating never lengthens a sequence.
pub proof fn lemma_dedup_first_len_le(s: Seq<Seq<Axial>>)
    ensures
        dedup_first(s).len() <= s.len(),
    decreases s.len(),
{
    if s.len() > 0 {
        lemma_dedup_first_len_le(s.drop_last());
    }
}

/// A fresh copy of a cell set.
pub fn copy_cells(v: &Vec<Axial>) -> (r: Vec<Axial>)
    ensures
        r@ == v@,
{
    let mut out: Vec<Axial> = Vec::new();
    let mut i: usize = 0;
    while i < v.len()
        invariant
            i <= v.len(),
            out@ == v@.take(i as int),
        decreases v.len() - i,
    {
        out.push(v[i]);
        i = i + 1;
        proof {
            assert(out@ =~= v@.take(i as int));
        }
    }
    proof {
        assert(v@.take(v@.len() as int) =~= v@);
    }
    out
}

/// Whether two cell sets are identical, element for element.
pub fn eq_cells(a: &Vec<Axial>, b: &Vec<Axial>) -> (r: bool)
    ensures
        r == (a@ == b@),
{
    if a.len() != b.len() {
        proof {
            assert(a@ != b@);
        }
        return false;
    }
    let mut i: usize = 0;
    while i < a.len()
        invariant
            i <= a.len(),
            a@.len() == b@.len(),
            forall|j: int| 0 <= j < i ==> a@[j] == b@[j],
        decreases a.len() - i,
    {
        if a[i] != b[i] {
            proof {
                assert(a@[i as int] != b@[i as int]);
            }
            return false;
        }
        i = i + 1;
    }
    proof {
        assert(a@ =~= b@);
    }
    true
}

/// Whether a list of pieces already holds `p`.
pub fn contains_piece(v: &Vec<Vec<Axial>>, p: &Vec<Axial>) -> (r: bool)
    ensures
        r == pieces_view(v@).contains(p@),
{
    let mut i: usize = 0;
    while i < v.len()
        invariant
            i <= v.len(),
            forall|j: int| 0 <= j < i ==> pieces_view(v@)[j] != p@,
        decreases v.len() - i,
    {
        if eq_cells(&v[i], p) {
            proof {
                assert(pieces_view(v@)[i as int] == p@);
            }
            return true;
        }
        i = i + 1;
    }
    false
}

/// The deduplicated list of shape-canonical orientations of one piece
/// under the hexagonal grid's twelve symmetries: the canonical input,
/// then each further entry of the rotation-then-reflection sweep that
/// is not already present, in discovery order.
pub fn piece_permutations(piece: Vec<Axial>) -> (r: Vec<Vec<Axial>>)
    ensures
        pieces_view(r@) == dedup_first(orient_sweep(shape_canon(piece@))),
{
    let mut p = piece;
    canonicalize_shape(&mut p);
    let ghost p0 = p@;
    let mut out: Vec<Vec<Axial>> = Vec::new();
    out.push(copy_cells(&p));
    proof {
        let t = orient_sweep(p0).take(1);
        assert(t.len() == 1);
        assert(t.drop_last() =~= Seq::<Seq<Axial>>::empty());
        assert(dedup_first(Seq::<Seq<Axial>>::empty()) == Seq::<Seq<Axial>>::empty());
        assert(t.last() == orient_chain(p0, 0));
        assert(dedup_first(t) == Seq::<Seq<Axial>>::empty().push(p0));
        assert(pieces_view(out@) =~= dedup_first(t));
    }
    let mut i: usize = 1;
    while i < 14
        invariant
            1 <= i <= 14,
            p@ == orient_chain(p0, i - 1),
            pieces_view(out@) == dedup_first(orient_sweep(p0).take(i as int)),
        decreases 14 - i,
    {
        if i == 7 {
            flip(&mut p);
        } else {
            rotate(&mut p);
        }
        canonicalize_shape(&mut p);
        proof {
            assert(p@ == orient_chain(p0, i as int));
        }
        let ghost prev = pieces_view(out@);
        if !contains_piece(&out, &p) {
            out.push(copy_cells(&p));
            proof {
                assert(pieces_view(out@) =~= prev.push(p@));
            }
        }
        i = i + 1;
        proof {
            let t = orient_sweep(p0).take(i as int);
            assert(t.drop_last() =~= orient_sweep(p0).take(i - 1));
            assert(t.last() == orient_chain(p0, i - 1));
        }
    }
    proof {
        assert(orient_sweep(p0).take(14) =~= orient_sweep(p0));
    }
    out
}

} // verus!
