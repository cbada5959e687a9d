use vstd::prelude::*;

use crate::axial::Axial;
use crate::cells::{fits, spots, spots_spec, translate_spec};
use crate::orient::pieces_view;

verus! {

broadcast use vstd::seq_lib::group_filter_ensures;

/// The placements of one orientation against a board: its translation
/// to each accepted spot, in scan order.
pub open spec fn orientation_placements(board: Seq<Axial>, piece: Seq<Axial>) -> Seq<Seq<Axial>> {
    spots_spec(board, piece).map_values(|s: Axial| translate_spec(piece, s))
}

/// Every placement of the orientations from index `j` on, in
/// enumeration order: all placements of orientation `j`, then all of
/// orientation `j + 1`, and so on.
pub open spec fn placements_from(board: Seq<Axial>, perms: Seq<Seq<Axial>>, j: int) -> Seq<
    Seq<Axial>,
>
    decreases perms.len() - j,
{
    if j < 0 || j >= perms.len() {
        Seq::empty()
    } else {
        orientation_placements(board, perms[j]) + placements_from(board, perms, j + 1)
    }
}

/// Whether `cells` is one orientation of the piece translated to a
/// spot accepted against `board`.
pub open spec fn is_placement(board: Seq<Axial>, perms: Seq<Seq<Axial>>, cells: Seq<Axial>) -> bool {
    exists|j: int, s: Axial|
        0 <= j < perms.len() && #[trigger] spots_spec(board, perms[j]).contains(s) && cells
            == translate_spec(perms[j], s)
}

/// Every entry of `placements_from` is a placement.
pub proof fn lemma_placements_from_are_placements(
    board: Seq<Axial>,
    perms: Seq<Seq<Axial>>,
    j: int,
    k: int,
)
    requires
        0 <= k < placements_from(board, perms, j).len(),
    ensures
        is_placement(board, perms, placements_from(board, perms, j)[k]),
    decreases perms.len() - j,
{
    if j < 0 || j >= perms.len() {
    } else {
        let head = orientation_placements(board, perms[j]);
        if k < head.len() {
            let s = spots_spec(board, perms[j])[k];
            assert(spots_spec(board, perms[j]).contains(s));
            assert(placements_from(board, perms, j)[k] == translate_spec(perms[j], s));
        } else {
            lemma_placements_from_are_placements(board, perms, j + 1, k - head.len());
            assert(placements_from(board, perms, j)[k] == placements_from(board, perms, j + 1)[k
                - head.len()]);
        }
    }
}

/// A placement lies entirely inside the board.
pub proof fn lemma_placement_in_board(board: Seq<Axial>, perms: Seq<Seq<Axial>>, cells: Seq<Axial>)
    requires
        is_placement(board, perms, cells),
    ensures
        forall|c: Axial| cells.contains(c) ==> board.contains(c),
{
    let (j, s) = choose|j: int, s: Axial|
        0 <= j < perms.len() && #[trigger] spots_spec(board, perms[j]).contains(s) && cells
            == translate_spec(perms[j], s);
    let piece = perms[j];
    let cand = spots_spec(board, piece);
    let i = choose|i: int| 0 <= i < cand.len() && cand[i] == s;
    assert(fits(board, piece, s)) by {
        reveal(crate::cells::spots_spec);
    }
    assert forall|c: Axial| cells.contains(c) implies board.contains(c) by {
        let k = choose|k: int| 0 <= k < cells.len() && cells[k] == c;
        assert(board.contains(crate::axial::axial_add(piece[k], s)));
    }
}

/// An absolute bound on how many placements one cursor can have left:
/// at most fourteen orientations, each with a bounded spot count.
pub open spec fn placer_slot_max() -> int {
    14 * crate::cells::spot_count_max()
}

/// The placements of the orientations from `j` on are bounded by the
/// orientation count times the per-orientation bound.
pub proof fn lemma_placements_from_len_bound(board: Seq<Axial>, perms: Seq<Seq<Axial>>, j: int)
    requires
        0 <= j <= perms.len(),
    ensures
        placements_from(board, perms, j).len() <= (perms.len() - j) * crate::cells::spot_count_max(),
    decreases perms.len() - j,
{
    let c = crate::cells::spot_count_max();
    if j < perms.len() {
        lemma_placements_from_len_bound(board, perms, j + 1);
        crate::cells::lemma_spots_len_bound(board, perms[j]);
        assert(orientation_placements(board, perms[j]).len() <= c);
        assert(c + (perms.len() - j - 1) * c == (perms.len() - j) * c) by (nonlinear_arith);
    } else {
        assert((perms.len() - j) * c == 0) by (nonlinear_arith)
            requires
                perms.len() - j == 0,
        ;
    }
}

/// A consistent cursor over at most fourteen orientations has at most
/// the absolute bound of placements left.
pub proof fn lemma_remaining_len_bound(p: Placer, perms: Seq<Seq<Axial>>)
    requires
        placer_wf(p, perms),
        perms.len() <= 14,
    ensures
        placer_remaining(p, perms).len() <= placer_slot_max(),
{
    reveal(crate::placer::placer_remaining);
    let c = crate::cells::spot_count_max();
    if p.permutation_idx < perms.len() {
        let idx = p.permutation_idx as int;
        crate::cells::lemma_spots_len_bound(p.board@, perms[idx]);
        lemma_placements_from_len_bound(p.board@, perms, idx + 1);
        assert(orientation_placements(p.board@, perms[idx]).skip(p.spot_idx as int).len() <= c);
        assert((perms.len() - idx - 1) * c <= 13 * c) by (nonlinear_arith)
            requires
                0 <= perms.len() - idx - 1 <= 13,
                c > 0,
        ;
    }
}

/// The per-piece-slot cursor that lazily enumerates every placement of
/// one piece against a fixed board: it tries the orientations in list
/// order and, within one orientation, the accepted spots in scan
/// order.
#[derive(Clone, Debug)]
pub struct Placer {
    /// The board snapshot this cursor enumerates against.
    pub board: Vec<Axial>,
    /// The accepted spots of the orientation currently being tried.
    pub spots: Vec<Axial>,
    /// The index of the orientation currently being tried.
    pub permutation_idx: usize,
    /// The index of the next untried spot of that orientation.
    pub spot_idx: usize,
}

/// The cursor is consistent with the orientation list it enumerates:
/// the orientation index is in range (or one past the end, when
/// exhausted), and the spot list is the accepted spots of the current
/// orientation with the spot index in range.
pub open spec fn placer_wf(p: Placer, perms: Seq<Seq<Axial>>) -> bool {
    &&& p.permutation_idx <= perms.len()
    &&& (p.permutation_idx < perms.len() ==> {
        &&& p.spots@ == spots_spec(p.board@, perms[p.permutation_idx as int])
        &&& p.spot_idx <= p.spots@.len()
    })
}

/// The placements this cursor has not yet yielded, in the order it
/// will yield them.
#[verifier::opaque]
pub open spec fn placer_remaining(p: Placer, perms: Seq<Seq<Axial>>) -> Seq<Seq<Axial>> {
    if p.permutation_idx < perms.len() {
        orientation_placements(p.board@, perms[p.permutation_idx as int]).skip(p.spot_idx as int)
            + placements_from(p.board@, perms, p.permutation_idx + 1)
    } else {
        Seq::empty()
    }
}

impl Placer {
    /// A fresh cursor over `permutations` against `board`, positioned
    /// before every placement.
    pub fn new(board: Vec<Axial>, permutations: &Vec<Vec<Axial>>) -> (r: Self)
        requires
            permutations@.len() > 0,
        ensures
            placer_wf(r, pieces_view(permutations@)),
            r.board@ == board@,
            r.permutation_idx == 0,
            r.spot_idx == 0,
            placer_remaining(r, pieces_view(permutations@)) == placements_from(
                board@,
                pieces_view(permutations@),
                0,
            ),
    {
        let s = spots(&board, &permutations[0]);
        let r = Placer { spots: s, board, permutation_idx: 0, spot_idx: 0 };
        proof {
            reveal(crate::placer::placer_remaining);
            let pv = pieces_view(permutations@);
            assert(orientation_placements(r.board@, pv[0]).skip(0) =~= orientation_placements(
                r.board@,
                pv[0],
            ));
        }
        r
    }

    /// Write the next placement, if one remains, into `placed` and
    /// advance: the cursor yields exactly its remaining placements, in
    /// order, then reports exhaustion.
    pub fn next_place(&mut self, placed: &mut Vec<Axial>, permutations: &Vec<Vec<Axial>>) -> (r:
        bool)
        requires
            placer_wf(*old(self), pieces_view(permutations@)),
        ensures
            placer_wf(*final(self), pieces_view(permutations@)),
            final(self).board == old(self).board,
            r == (placer_remaining(*old(self), pieces_view(permutations@)).len() > 0),
            r ==> final(placed)@ == placer_remaining(*old(self), pieces_view(permutations@))[0],
            r ==> placer_remaining(*final(self), pieces_view(permutations@)) == placer_remaining(
                *old(self),
                pieces_view(permutations@),
            ).skip(1),
            r ==> is_placement(
                old(self).board@,
                pieces_view(permutations@),
                final(placed)@,
            ),
            !r ==> final(placed)@ == old(placed)@ && *final(placed) == *old(placed),
            !r ==> final(self).permutation_idx == pieces_view(permutations@).len(),
    {
        let ghost pv = pieces_view(permutations@);
        while self.permutation_idx < permutations.len()
            invariant
                pv == pieces_view(permutations@),
                placer_wf(*self, pv),
                self.board == old(self).board,
                *placed == *old(placed),
                placer_remaining(*self, pv) == placer_remaining(*old(self), pv),
            decreases permutations@.len() - self.permutation_idx,
        {
            let idx = self.permutation_idx;
            if self.spot_idx < self.spots.len() {
                let spot = self.spots[self.spot_idx];
                let ghost pre = *self;
                self.spot_idx = self.spot_idx + 1;
                let piece = &permutations[idx];
                let mut out: Vec<Axial> = Vec::new();
                let mut k: usize = 0;
                while k < piece.len()
                    invariant
                        k <= piece.len(),
                        out@ == translate_spec(piece@.take(k as int), spot),
                    decreases piece.len() - k,
                {
                    out.push(piece[k].wrapping_add(spot));
                    k = k + 1;
                    proof {
                        assert(out@ =~= translate_spec(piece@.take(k as int), spot));
                    }
                }
                proof {
                    assert(piece@.take(piece@.len() as int) =~= piece@);
                }
                *placed = out;
                proof {
                    reveal(crate::placer::placer_remaining);
                    let head = orientation_placements(pre.board@, pv[idx as int]);
                    let tail = placements_from(pre.board@, pv, idx + 1);
                    let rem = head.skip(pre.spot_idx as int) + tail;
                    assert(placer_remaining(pre, pv) == rem);
                    assert(rem[0] == head[pre.spot_idx as int]);
                    assert(head[pre.spot_idx as int] == translate_spec(
                        pv[idx as int],
                        pre.spots@[pre.spot_idx as int],
                    ));
                    assert(placed@ == placer_remaining(pre, pv)[0]);
                    assert(placer_remaining(pre, pv).len() > 0);
                    assert(placer_remaining(*self, pv) =~= rem.skip(1));
                    assert(placer_remaining(*self, pv) == placer_remaining(pre, pv).skip(1));
                    assert(spots_spec(pre.board@, pv[idx as int]).contains(spot));
                    assert(is_placement(pre.board@, pv, placed@));
                }
                return true;
            }
            let ghost pre = *self;
            self.permutation_idx = idx + 1;
            if self.permutation_idx < permutations.len() {
                let s = spots(&self.board, &permutations[self.permutation_idx]);
                self.spots = s;
                self.spot_idx = 0;
                proof {
                    reveal(crate::placer::placer_remaining);
                    let head = orientation_placements(pre.board@, pv[idx as int]);
                    assert(head.skip(pre.spot_idx as int) =~= Seq::<Seq<Axial>>::empty());
                    assert(placer_remaining(pre, pv) =~= placements_from(pre.board@, pv, idx + 1));
                    assert(orientation_placements(self.board@, pv[idx + 1]).skip(0)
                        =~= orientation_placements(self.board@, pv[idx + 1]));
                    assert(placer_remaining(*self, pv) =~= placements_from(self.board@, pv, idx + 1));
                }
            } else {
                proof {
                    reveal(crate::placer::placer_remaining);
                    let head = orientation_placements(pre.board@, pv[idx as int]);
                    assert(head.skip(pre.spot_idx as int) =~= Seq::<Seq<Axial>>::empty());
                    assert(placements_from(pre.board@, pv, idx + 1) =~= Seq::<Seq<Axial>>::empty());
                    assert(placer_remaining(pre, pv) =~= Seq::<Seq<Axial>>::empty());
                    assert(placer_remaining(*self, pv) =~= Seq::<Seq<Axial>>::empty());
                }
            }
        }
        proof {
            assert(placer_remaining(*self, pv) =~= Seq::<Seq<Axial>>::empty()) by {
                reveal(crate::placer::placer_remaining);
            }
        }
        false
    }
}

impl Default for Placer {
    /// A placeholder cursor against the empty board; the search
    /// replaces it before ever querying it.
    fn default() -> (r: Self)
        ensures
            r.board@ == Seq::<Axial>::empty(),
            r.permutation_idx == 0,
            r.spot_idx == 0,
    {
        let empty_board: Vec<Axial> = Vec::new();
        let empty_piece: Vec<Axial> = Vec::new();
        Placer {
            spots: spots(&empty_board, &empty_piece),
            board: empty_board,
            permutation_idx: 0,
            spot_idx: 0,
        }
    }
}

} // verus!
