use vstd::prelude::*;
use vstd::relations::sorted_by;

use crate::axial::{
    axial_add, axial_flip, axial_max, axial_min, axial_rotate, axial_rotate_many, axial_sub,
    key_le, key_le_fn, key_spec, lemma_key_le_total_ordering, Axial, AxialAabb,
};

verus! {

broadcast use vstd::seq_lib::group_to_multiset_ensures, vstd::multiset::group_multiset_axioms;

/// Every cell shifted by `offset` (wrapping).
pub open spec fn translate_spec(s: Seq<Axial>, offset: Axial) -> Seq<Axial> {
    s.map_values(|c: Axial| axial_add(c, offset))
}

/// Every cell rotated 60 degrees about the origin.
pub open spec fn rotate_cells_spec(s: Seq<Axial>) -> Seq<Axial> {
    s.map_values(|c: Axial| axial_rotate(c, Axial(0, 0)))
}

/// Every cell rotated `n` times 60 degrees about the origin.
pub open spec fn rotate_many_cells_spec(s: Seq<Axial>, n: nat) -> Seq<Axial> {
    s.map_values(|c: Axial| axial_rotate_many(c, Axial(0, 0), n))
}

/// Every cell reflected across one axis.
pub open spec fn flip_cells_spec(s: Seq<Axial>) -> Seq<Axial> {
    s.map_values(|c: Axial| axial_flip(c))
}

/// The component-wise minimum of a cell set, folded from
/// `(i32::MAX, i32::MAX)`.
pub open spec fn min_cells(s: Seq<Axial>) -> Axial
    decreases s.len(),
{
    if s.len() == 0 {
        Axial(i32::MAX, i32::MAX)
    } else {
        axial_min(min_cells(s.drop_last()), s.last())
    }
}

/// The component-wise maximum of a cell set, folded from
/// `(i32::MIN, i32::MIN)`.
pub open spec fn max_cells(s: Seq<Axial>) -> Axial
    decreases s.len(),
{
    if s.len() == 0 {
        Axial(i32::MIN, i32::MIN)
    } else {
        axial_max(max_cells(s.drop_last()), s.last())
    }
}

/// The bounding box of a cell set.
pub open spec fn aabb_spec(s: Seq<Axial>) -> AxialAabb {
    AxialAabb { min: min_cells(s), max: max_cells(s) }
}

/// Translate every cell by `offset`.
pub fn translate(coords: &mut Vec<Axial>, offset: Axial)
    ensures
        final(coords)@ == translate_spec(old(coords)@, offset),
{
    let mut out: Vec<Axial> = Vec::new();
    let mut i: usize = 0;
    while i < coords.len()
        invariant
            i <= coords.len(),
            out@ == translate_spec(coords@.take(i as int), offset),
        decreases coords.len() - i,
    {
        out.push(coords[i].wrapping_add(offset));
        i = i + 1;
        proof {
            assert(coords@.take(i as int).drop_last() =~= coords@.take(i - 1));
            assert(out@ =~= translate_spec(coords@.take(i as int), offset));
        }
    }
    proof {
        assert(coords@.take(coords@.len() as int) =~= coords@);
    }
    *coords = out;
}

/// Rotate every cell 60 degrees about the origin.
pub fn rotate(coords: &mut Vec<Axial>)
    ensures
        final(coords)@ == rotate_cells_spec(old(coords)@),
{
    let mut out: Vec<Axial> = Vec::new();
    let mut i: usize = 0;
    while i < coords.len()
        invariant
            i <= coords.len(),
            out@ == rotate_cells_spec(coords@.take(i as int)),
        decreases coords.len() - i,
    {
        out.push(coords[i].rotate(Axial(0, 0)));
        i = i + 1;
        proof {
            assert(out@ =~= rotate_cells_spec(coords@.take(i as int)));
        }
    }
    proof {
        assert(coords@.take(coords@.len() as int) =~= coords@);
    }
    *coords = out;
}

/// Rotate every cell `count` times 60 degrees about the origin.
pub fn rotate_many(coords: &mut Vec<Axial>, count: usize)
    ensures
        final(coords)@ == rotate_many_cells_spec(old(coords)@, count as nat),
{
    let mut out: Vec<Axial> = Vec::new();
    let mut i: usize = 0;
    while i < coords.len()
        invariant
            i <= coords.len(),
            out@ == rotate_many_cells_spec(coords@.take(i as int), count as nat),
        decreases coords.len() - i,
    {
        out.push(coords[i].rotate_many(Axial(0, 0), count));
        i = i + 1;
        proof {
            assert(out@ =~= rotate_many_cells_spec(coords@.take(i as int), count as nat));
        }
    }
    proof {
        assert(coords@.take(coords@.len() as int) =~= coords@);
    }
    *coords = out;
}

/// Reflect every cell across one axis.
pub fn flip(coords: &mut Vec<Axial>)
    ensures
        final(coords)@ == flip_cells_spec(old(coords)@),
{
    let mut out: Vec<Axial> = Vec::new();
    let mut i: usize = 0;
    while i < coords.len()
        invariant
            i <= coords.len(),
            out@ == flip_cells_spec(coords@.take(i as int)),
        decreases coords.len() - i,
    {
        out.push(coords[i].flip());
        i = i + 1;
        proof {
            assert(out@ =~= flip_cells_spec(coords@.take(i as int)));
        }
    }
    proof {
        assert(coords@.take(coords@.len() as int) =~= coords@);
    }
    *coords = out;
}

/// The component-wise minimum of a cell set.
pub fn min(coords: &Vec<Axial>) -> (r: Axial)
    ensures
        r == min_cells(coords@),
{
    let mut acc = Axial(i32::MAX, i32::MAX);
    let mut i: usize = 0;
    while i < coords.len()
        invariant
            i <= coords.len(),
            acc == min_cells(coords@.take(i as int)),
        decreases coords.len() - i,
    {
        acc = acc.min(coords[i]);
        i = i + 1;
        proof {
            assert(coords@.take(i as int).drop_last() =~= coords@.take(i - 1));
        }
    }
    proof {
        assert(coords@.take(coords@.len() as int) =~= coords@);
    }
    acc
}

/// The bounding box of a cell set.
pub fn aabb(coords: &Vec<Axial>) -> (r: AxialAabb)
    ensures
        r == aabb_spec(coords@),
{
    let mut lo = Axial(i32::MAX, i32::MAX);
    let mut hi = Axial(i32::MIN, i32::MIN);
    let mut i: usize = 0;
    while i < coords.len()
        invariant
            i <= coords.len(),
            lo == min_cells(coords@.take(i as int)),
            hi == max_cells(coords@.take(i as int)),
        decreases coords.len() - i,
    {
        lo = lo.min(coords[i]);
        hi = hi.max(coords[i]);
        i = i + 1;
        proof {
            assert(coords@.take(i as int).drop_last() =~= coords@.take(i - 1));
        }
    }
    proof {
        assert(coords@.take(coords@.len() as int) =~= coords@);
    }
    AxialAabb { min: lo, max: hi }
}

/// The place-canonical form of a cell set: its cells sorted by packed
/// key, position kept.
pub open spec fn place_canon(s: Seq<Axial>) -> Seq<Axial> {
    s.sort_by(key_le_fn())
}

/// The shape-canonical form of a cell set: translated so that its
/// component-wise minimum is the origin, then sorted by packed key.
pub open spec fn shape_canon(s: Seq<Axial>) -> Seq<Axial> {
    place_canon(s.map_values(|c: Axial| axial_sub(c, min_cells(s))))
}

/// Inserting into a sequence inserts into its multiset.
proof fn lemma_insert_to_multiset(s: Seq<Axial>, j: int, a: Axial)
    requires
        0 <= j <= s.len(),
    ensures
        s.insert(j, a).to_multiset() == s.to_multiset().insert(a),
{
    let t = s.insert(j, a);
    assert(t.remove(j) =~= s);
    assert(t[j] == a);
    assert(s.to_multiset() == t.to_multiset().remove(a));
    assert(t.contains(a));
    assert(t.to_multiset().count(a) > 0);
    assert(t.to_multiset() =~= s.to_multiset().insert(a));
}

/// Sort the cells by packed key. The result is the place-canonical
/// form of the input.
pub fn canonicalize_place(piece: &mut Vec<Axial>)
    ensures
        final(piece)@ == place_canon(old(piece)@),
{
    let ghost leq = key_le_fn();
    let mut out: Vec<Axial> = Vec::new();
    let mut i: usize = 0;
    while i < piece.len()
        invariant
            i <= piece.len(),
            leq == key_le_fn(),
            sorted_by(out@, leq),
            out@.to_multiset() == piece@.take(i as int).to_multiset(),
        decreases piece.len() - i,
    {
        let a = piece[i];
        let mut j: usize = 0;
        while j < out.len() && out[j].key() <= a.key()
            invariant
                j <= out.len(),
                forall|k: int| 0 <= k < j ==> key_spec(out@[k]) <= key_spec(a),
            decreases out.len() - j,
        {
            j = j + 1;
        }
        proof {
            let t = out@.insert(j as int, a);
            out@.insert_ensures(j as int, a);
            assert forall|k1: int, k2: int| 0 <= k1 < k2 < t.len() implies #[trigger] leq(
                t[k1],
                t[k2],
            ) by {
                let v1: Axial = if k1 < j {
                    out@[k1]
                } else if k1 == j {
                    a
                } else {
                    out@[k1 - 1]
                };
                let v2: Axial = if k2 < j {
                    out@[k2]
                } else if k2 == j {
                    a
                } else {
                    out@[k2 - 1]
                };
                assert(t[k1] == v1);
                assert(t[k2] == v2);
                if k1 == j {
                    // the inner scan stopped at the first strictly larger key
                    assert(j < out@.len() && key_spec(out@[j as int]) > key_spec(a));
                    if k2 - 1 > j {
                        assert(leq(out@[j as int], out@[k2 - 1]));
                    }
                    assert(key_spec(v1) <= key_spec(v2));
                } else if k2 == j {
                    assert(key_spec(v1) <= key_spec(v2));
                } else if k1 < j && k2 > j {
                    assert(leq(out@[k1], out@[k2 - 1]));
                    assert(key_spec(v1) <= key_spec(v2));
                } else {
                    assert(leq(v1, v2));
                    assert(key_spec(v1) <= key_spec(v2));
                }
                assert(key_le(v1, v2));
            }
            lemma_insert_to_multiset(out@, j as int, a);
            assert(piece@.take(i + 1).drop_last() =~= piece@.take(i as int));
            assert(piece@.take(i + 1) =~= piece@.take(i as int).push(piece@[i as int]));
        }
        out.insert(j, a);
        i = i + 1;
    }
    proof {
        assert(piece@.take(piece@.len() as int) =~= piece@);
        lemma_key_le_total_ordering();
        piece@.lemma_sort_by_ensures(leq);
        vstd::seq_lib::lemma_sorted_unique(out@, piece@.sort_by(leq), leq);
    }
    *piece = out;
}

/// Translate the cells so their component-wise minimum is the origin,
/// then sort them by packed key. The result is the shape-canonical
/// form of the input.
pub fn canonicalize_shape(piece: &mut Vec<Axial>)
    ensures
        final(piece)@ == shape_canon(old(piece)@),
{
    let m = min(piece);
    let mut out: Vec<Axial> = Vec::new();
    let mut i: usize = 0;
    while i < piece.len()
        invariant
            i <= piece.len(),
            m == min_cells(piece@),
            out@ == piece@.take(i as int).map_values(|c: Axial| axial_sub(c, min_cells(piece@))),
        decreases piece.len() - i,
    {
        out.push(piece[i].wrapping_sub(m));
        i = i + 1;
        proof {
            assert(out@ =~= piece@.take(i as int).map_values(
                |c: Axial| axial_sub(c, min_cells(piece@)),
            ));
        }
    }
    proof {
        assert(piece@.take(piece@.len() as int) =~= piece@);
    }
    *piece = out;
    canonicalize_place(piece);
}

/// Whether a cell set contains `c`.
pub fn contains_cell(cells: &Vec<Axial>, c: Axial) -> (r: bool)
    ensures
        r == cells@.contains(c),
{
    let mut i: usize = 0;
    while i < cells.len()
        invariant
            i <= cells.len(),
            forall|j: int| 0 <= j < i ==> cells@[j] != c,
        decreases cells.len() - i,
    {
        if cells[i] == c {
            return true;
        }
        i = i + 1;
    }
    false
}

/// Shape-canonicalizing keeps the cell count.
pub proof fn lemma_shape_canon_len(s: Seq<Axial>)
    ensures
        shape_canon(s).len() == s.len(),
{
    lemma_place_canon_same_cells(s.map_values(|c: Axial| axial_sub(c, min_cells(s))));
}

/// A kept element of a filtered sequence comes from the original and
/// satisfies the predicate.
pub proof fn lemma_filter_subset<A>(s: Seq<A>, pred: spec_fn(A) -> bool, x: A)
    requires
        s.filter(pred).contains(x),
    ensures
        s.contains(x),
        pred(x),
    decreases s.len(),
{
    reveal(Seq::filter);
    if s.len() > 0 {
        let rest = s.drop_last().filter(pred);
        if pred(s.last()) && x == s.last() {
            assert(s.contains(x)) by {
                assert(s[s.len() - 1] == x);
            }
        } else {
            assert(rest.contains(x));
            lemma_filter_subset(s.drop_last(), pred, x);
            let i = choose|i: int| 0 <= i < s.drop_last().len() && s.drop_last()[i] == x;
            assert(s[i] == x);
        }
    }
}

/// Canonicalization keeps exactly the same cells.
pub proof fn lemma_place_canon_same_cells(s: Seq<Axial>)
    ensures
        forall|c: Axial| place_canon(s).contains(c) <==> s.contains(c),
        place_canon(s).len() == s.len(),
{
    lemma_key_le_total_ordering();
    s.lemma_sort_by_ensures(key_le_fn());
    let t = place_canon(s);
    assert(t.to_multiset() == s.to_multiset());
    assert forall|c: Axial| t.contains(c) <==> s.contains(c) by {
        assert(t.contains(c) <==> t.to_multiset().count(c) > 0);
        assert(s.contains(c) <==> s.to_multiset().count(c) > 0);
    }
    assert(t.len() == t.to_multiset().len());
    assert(s.len() == s.to_multiset().len());
}

/// The candidate offsets for one orientation against a board: every
/// offset that keeps the orientation's bounding box inside the board's
/// bounding box, scanned row-major over the two axes.
pub open spec fn candidates_spec(board: Seq<Axial>, piece: Seq<Axial>) -> Seq<Axial> {
    let bb = aabb_spec(board);
    let pb = aabb_spec(piece);
    let wiggle = axial_sub(axial_sub(bb.max, bb.min), axial_sub(pb.max, pb.min));
    let max_x = wiggle.0.wrapping_add(1) as int;
    let max_y = wiggle.1.wrapping_add(1) as int;
    let offset = axial_add(bb.min, axial_sub(Axial(0, 0), pb.min));
    if max_x <= 0 || max_y <= 0 {
        Seq::empty()
    } else {
        Seq::new(
            (max_x * max_y) as nat,
            |k: int| axial_add(Axial((k / max_y) as i32, (k % max_y) as i32), offset),
        )
    }
}

/// An absolute bound on how many candidate offsets one orientation
/// can have against any board: the wiggle box never exceeds the
/// coordinate type's range in either axis.
pub open spec fn spot_count_max() -> int {
    0x4000_0000_0000_0000
}

/// No orientation has more candidate offsets than the absolute bound.
pub proof fn lemma_candidates_len_bound(board: Seq<Axial>, piece: Seq<Axial>)
    ensures
        candidates_spec(board, piece).len() <= spot_count_max(),
{
    let bb = aabb_spec(board);
    let pb = aabb_spec(piece);
    let wiggle = axial_sub(axial_sub(bb.max, bb.min), axial_sub(pb.max, pb.min));
    let max_x = wiggle.0.wrapping_add(1) as int;
    let max_y = wiggle.1.wrapping_add(1) as int;
    if max_x <= 0 || max_y <= 0 {
    } else {
        assert(max_x * max_y <= spot_count_max()) by (nonlinear_arith)
            requires
                0 < max_x < 0x8000_0000,
                0 < max_y < 0x8000_0000,
        ;
    }
}

/// No orientation has more accepted spots than the absolute bound.
pub proof fn lemma_spots_len_bound(board: Seq<Axial>, piece: Seq<Axial>)
    ensures
        spots_spec(board, piece).len() <= spot_count_max(),
{
    reveal(crate::cells::spots_spec);
    lemma_candidates_len_bound(board, piece);
    candidates_spec(board, piece).lemma_filter_len(|s: Axial| fits(board, piece, s));
}

/// Whether the orientation translated by `spot` lies entirely inside
/// the board.
pub open spec fn fits(board: Seq<Axial>, piece: Seq<Axial>, spot: Axial) -> bool {
    forall|i: int| 0 <= i < piece.len() ==> board.contains(axial_add(piece[i], spot))
}

/// The accepted spots for one orientation against a board: the
/// candidate offsets at which it lies entirely inside the board, in
/// scan order.
#[verifier::opaque]
pub open spec fn spots_spec(board: Seq<Axial>, piece: Seq<Axial>) -> Seq<Axial> {
    candidates_spec(board, piece).filter(|s: Axial| fits(board, piece, s))
}

/// Filtering a one-element sequence keeps or drops its element.
proof fn lemma_filter_singleton<A>(c: A, pred: spec_fn(A) -> bool)
    ensures
        seq![c].filter(pred) == if pred(c) {
            seq![c]
        } else {
            Seq::<A>::empty()
        },
{
    reveal(Seq::filter);
    let s = seq![c];
    assert(s.drop_last() =~= Seq::<A>::empty());
    assert(Seq::<A>::empty().filter(pred) == Seq::<A>::empty());
    assert(s.last() == c);
    if pred(c) {
        assert(s.filter(pred) =~= seq![c]);
    } else {
        assert(s.filter(pred) =~= Seq::<A>::empty());
    }
}

/// The candidate offsets for one orientation against a board, in scan
/// order.
pub fn spot_candidates(board: &Vec<Axial>, piece: &Vec<Axial>) -> (r: Vec<Axial>)
    ensures
        r@ == candidates_spec(board@, piece@),
{
    let bb = aabb(board);
    let pb = aabb(piece);
    let wiggle = bb.size().wrapping_sub(pb.size());
    let max_x = wiggle.0.wrapping_add(1);
    let max_y = wiggle.1.wrapping_add(1);
    let offset = bb.min.wrapping_add(Axial(0, 0).wrapping_sub(pb.min));
    let ghost cand = candidates_spec(board@, piece@);
    let mut out: Vec<Axial> = Vec::new();
    if max_x <= 0 || max_y <= 0 {
        return out;
    }
    let mut x: i32 = 0;
    while x < max_x
        invariant
            0 <= x <= max_x,
            0 < max_y,
            cand == candidates_spec(board@, piece@),
            cand.len() == (max_x as int) * (max_y as int),
            forall|k: int|
                0 <= k < cand.len() ==> cand[k] == axial_add(
                    Axial((k / (max_y as int)) as i32, (k % (max_y as int)) as i32),
                    offset,
                ),
            out@.len() == (x as int) * (max_y as int),
            out@ == cand.take(out@.len() as int),
        decreases max_x - x,
    {
        let mut y: i32 = 0;
        proof {
            assert((x as int) * (max_y as int) + (max_y as int) <= (max_x as int) * (max_y
                as int)) by (nonlinear_arith)
                requires
                    0 <= x < max_x,
                    0 < max_y,
            ;
        }
        while y < max_y
            invariant
                0 <= y <= max_y,
                0 <= x < max_x,
                0 < max_y,
                cand == candidates_spec(board@, piece@),
                cand.len() == (max_x as int) * (max_y as int),
                (x as int) * (max_y as int) + (max_y as int) <= cand.len(),
                forall|k: int|
                    0 <= k < cand.len() ==> cand[k] == axial_add(
                        Axial((k / (max_y as int)) as i32, (k % (max_y as int)) as i32),
                        offset,
                    ),
                out@.len() == (x as int) * (max_y as int) + (y as int),
                out@ == cand.take(out@.len() as int),
        decreases max_y - y,
    {
            proof {
                let k = (x as int) * (max_y as int) + (y as int);
                vstd::arithmetic::div_mod::lemma_fundamental_div_mod_converse(
                    k,
                    max_y as int,
                    x as int,
                    y as int,
                );
                assert(cand[k] == axial_add(Axial(x, y), offset));
            }
            out.push(Axial(x, y).wrapping_add(offset));
            y = y + 1;
            proof {
                assert(out@ =~= cand.take(out@.len() as int));
            }
        }
        proof {
            assert(((x as int) + 1) * (max_y as int) == (x as int) * (max_y as int) + (max_y
                as int)) by (nonlinear_arith);
        }
        x = x + 1;
    }
    proof {
        assert(out@.len() == cand.len()) by (nonlinear_arith)
            requires
                out@.len() == (x as int) * (max_y as int),
                cand.len() == (max_x as int) * (max_y as int),
                x == max_x,
        ;
        assert(cand.take(cand.len() as int) =~= cand);
    }
    out
}

/// Whether the orientation translated by `spot` lies entirely inside
/// the board.
pub fn fits_at(board: &Vec<Axial>, piece: &Vec<Axial>, spot: Axial) -> (r: bool)
    ensures
        r == fits(board@, piece@, spot),
{
    let mut i: usize = 0;
    while i < piece.len()
        invariant
            i <= piece.len(),
            forall|j: int| 0 <= j < i ==> board@.contains(axial_add(piece@[j], spot)),
        decreases piece.len() - i,
    {
        if !contains_cell(board, piece[i].wrapping_add(spot)) {
            return false;
        }
        i = i + 1;
    }
    true
}

/// The accepted spots for one orientation against a board, in scan
/// order.
pub fn spots(board: &Vec<Axial>, piece: &Vec<Axial>) -> (r: Vec<Axial>)
    ensures
        r@ == spots_spec(board@, piece@),
{
    let cand = spot_candidates(board, piece);
    let ghost pred = |s: Axial| fits(board@, piece@, s);
    let mut out: Vec<Axial> = Vec::new();
    let mut i: usize = 0;
    while i < cand.len()
        invariant
            i <= cand.len(),
            pred == (|s: Axial| fits(board@, piece@, s)),
            cand@ == candidates_spec(board@, piece@),
            out@ == cand@.take(i as int).filter(pred),
        decreases cand.len() - i,
    {
        let c = cand[i];
        proof {
            assert(cand@.take(i + 1) =~= cand@.take(i as int) + seq![c]);
            Seq::<Axial>::filter_distributes_over_add(cand@.take(i as int), seq![c], pred);
            lemma_filter_singleton(c, pred);
        }
        if fits_at(board, piece, c) {
            out.push(c);
        }
        i = i + 1;
        proof {
            assert(out@ =~= cand@.take(i as int).filter(pred));
        }
    }
    proof {
        assert(cand@.take(cand@.len() as int) =~= cand@);
        assert(out@ == spots_spec(board@, piece@)) by {
            reveal(crate::cells::spots_spec);
        }
    }
    out
}

/// The board without the cells of `piece`, order kept.
pub open spec fn remove_cells(board: Seq<Axial>, piece: Seq<Axial>) -> Seq<Axial> {
    board.filter(|c: Axial| !piece.contains(c))
}

/// Remove every cell of `piece` from the board, keeping the order of
/// the remaining cells.
pub fn place(board: &mut Vec<Axial>, piece: &Vec<Axial>)
    ensures
        final(board)@ == remove_cells(old(board)@, piece@),
{
    let ghost pred = |c: Axial| !piece@.contains(c);
    let mut out: Vec<Axial> = Vec::new();
    let mut i: usize = 0;
    while i < board.len()
        invariant
            i <= board.len(),
            pred == (|c: Axial| !piece@.contains(c)),
            out@ == board@.take(i as int).filter(pred),
        decreases board.len() - i,
    {
        let c = board[i];
        proof {
            assert(board@.take(i + 1) =~= board@.take(i as int) + seq![c]);
            Seq::<Axial>::filter_distributes_over_add(board@.take(i as int), seq![c], pred);
            lemma_filter_singleton(c, pred);
        }
        if !contains_cell(piece, c) {
            out.push(c);
        }
        i = i + 1;
        proof {
            assert(out@ =~= board@.take(i as int).filter(pred));
        }
    }
    proof {
        assert(board@.take(board@.len() as int) =~= board@);
    }
    *board = out;
}

} // verus!
