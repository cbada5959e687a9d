use vstd::prelude::*;

use vstd::pervasive::VecAdditionalExecFns;

use crate::axial::Axial;
use crate::cells::{
    canonicalize_place, lemma_filter_subset, lemma_place_canon_same_cells, place, place_canon,
    remove_cells, shape_canon, translate_spec,
};
use crate::orient::{
    copy_cells, dedup_first, lemma_dedup_first_nonempty, orient_sweep, piece_permutations,
    pieces_view,
};
use crate::placer::{
    is_placement, lemma_placement_in_board, placer_remaining, placer_slot_max, placer_wf, Placer,
};
use crate::solutions::{
    solutions_insert, solutions_len, solutions_list_view, solutions_new, solutions_seq,
    solutions_to_vec,
};

verus! {

/// A puzzle: the board to cover and the pieces to cover it with, in
/// placement order.
#[derive(Clone, Debug)]
pub struct Game {
    pub board: Vec<Axial>,
    pub pieces: Vec<Vec<Axial>>,
}

/// The cell sequences of each piece's orientation list.
pub open spec fn perms_list_view(v: Seq<Vec<Vec<Axial>>>) -> Seq<Seq<Seq<Axial>>> {
    v.map_values(|x: Vec<Vec<Axial>>| pieces_view(x@))
}

/// Whether `cells` is the place-canonical form of one of the given
/// orientations translated somewhere.
pub open spec fn is_canon_placement_of(perms_i: Seq<Seq<Axial>>, cells: Seq<Axial>) -> bool {
    exists|j: int, s: Axial|
        0 <= j < perms_i.len() && cells == place_canon(#[trigger] translate_spec(perms_i[j], s))
}

/// Whether `sol` is a recorded tiling of the board: one entry per
/// piece, with the piece's own cell count, every cell on the board,
/// no cell claimed by two pieces, and each entry the place-canonical
/// form of one orientation of its piece.
pub open spec fn valid_solution(
    board: Seq<Axial>,
    perms: Seq<Seq<Seq<Axial>>>,
    sol: Seq<Seq<Axial>>,
) -> bool {
    &&& sol.len() == perms.len()
    &&& forall|i: int|
        0 <= i < sol.len() ==> perms[i].len() > 0 && (#[trigger] sol[i]).len()
            == perms[i][0].len()
    &&& forall|i: int, c: Axial|
        0 <= i < sol.len() && #[trigger] sol[i].contains(c) ==> board.contains(c)
    &&& forall|i1: int, i2: int, c: Axial|
        #![trigger sol[i1].contains(c), sol[i2].contains(c)]
        0 <= i1 < i2 < sol.len() && sol[i1].contains(c) ==> !sol[i2].contains(c)
    &&& forall|i: int| 0 <= i < sol.len() ==> is_canon_placement_of(perms[i], #[trigger] sol[i])
}

/// No two recorded solutions are equal.
pub open spec fn no_dup_solutions(s: Seq<Seq<Seq<Axial>>>) -> bool {
    forall|i: int, j: int| 0 <= i < j < s.len() ==> s[i] != s[j]
}

/// The working buffer, each slot place-canonicalized: what a full
/// placement records as a solution.
pub open spec fn canon_buffer(s: Solver) -> Seq<Seq<Axial>> {
    Seq::new(s.pieces@.len(), |i: int| place_canon(s.pieces@[i]@))
}

/// The solution collection after one step from state `s`: when every
/// piece is placed, the canonicalized working buffer is appended
/// unless an equal solution is already held; otherwise the collection
/// is unchanged.
pub open spec fn step_solutions(s: Solver) -> Seq<Seq<Seq<Axial>>> {
    if s.work_idx == s.placers@.len() && s.placers@.len() > 0 {
        if solutions_seq(s.solutions).contains(canon_buffer(s)) {
            solutions_seq(s.solutions)
        } else {
            solutions_seq(s.solutions).push(canon_buffer(s))
        }
    } else {
        solutions_seq(s.solutions)
    }
}

/// Whether some cursor at or below the work index still has a
/// placement to yield: exactly when the next step reports a placement
/// rather than exhaustion.
pub open spec fn step_live(s: Solver) -> bool {
    exists|i: int|
        0 <= i <= s.work_idx && i < s.placers@.len() && placer_remaining(
            #[trigger] s.placers@[i],
            pieces_view(s.pieces_permutations@[i]@),
        ).len() > 0
}

/// What a step that reports a placement did, with `k` the slot below
/// the new work index: `k` is the deepest slot that still had a
/// placement, the head of its remaining sequence was written into the
/// buffer at `k`, its cursor moved past it, and nothing else in the
/// buffer or below `k` changed.
pub open spec fn step_placed(pre: Solver, post: Solver) -> bool {
    let n = pre.placers@.len() as int;
    let k = post.work_idx - 1;
    &&& post.work_idx >= 1
    &&& k <= pre.work_idx
    &&& k < n
    &&& placer_remaining(pre.placers@[k], pieces_view(pre.pieces_permutations@[k]@)).len() > 0
    &&& post.pieces@[k]@ == placer_remaining(
        pre.placers@[k],
        pieces_view(pre.pieces_permutations@[k]@),
    )[0]
    &&& forall|i: int| 0 <= i < n && i != k ==> post.pieces@[i] == pre.pieces@[i]
    &&& forall|i: int|
        k < i <= pre.work_idx && i < n ==> placer_remaining(
            #[trigger] pre.placers@[i],
            pieces_view(pre.pieces_permutations@[i]@),
        ).len() == 0
    &&& forall|i: int| 0 <= i < k ==> post.placers@[i] == pre.placers@[i]
    &&& placer_remaining(post.placers@[k], pieces_view(post.pieces_permutations@[k]@))
        == placer_remaining(pre.placers@[k], pieces_view(pre.pieces_permutations@[k]@)).skip(1)
}

/// What a step that reports exhaustion says of the state it started
/// from: every cursor at or below the entry work index had nothing
/// left, the buffer is untouched, and the final state is exhausted
/// too, so every later step keeps reporting exhaustion.
pub open spec fn step_exhausted(pre: Solver, post: Solver) -> bool {
    let n = pre.placers@.len() as int;
    &&& post.work_idx == 0
    &&& post.pieces@ == pre.pieces@
    &&& forall|i: int|
        0 <= i <= pre.work_idx && i < n ==> placer_remaining(
            #[trigger] pre.placers@[i],
            pieces_view(pre.pieces_permutations@[i]@),
        ).len() == 0
    &&& (n > 0 ==> placer_remaining(
        post.placers@[0],
        pieces_view(post.pieces_permutations@[0]@),
    ).len() == 0)
}

/// The search engine: one placement cursor per piece slot, a working
/// buffer of currently placed pieces, the slot being searched, and
/// the deduplicated solutions found so far.
#[derive(Debug)]
pub struct Solver {
    pub game: Game,
    pub pieces_permutations: Vec<Vec<Vec<Axial>>>,
    pub placers: Vec<Placer>,
    pub pieces: Vec<Vec<Axial>>,
    pub solutions: indexmap::IndexSet<Vec<Vec<Axial>>>,
    pub work_idx: usize,
}

/// The solver's internal consistency, kept between steps:
/// - one orientation list, one cursor and one buffer entry per piece,
///   the orientation lists being exactly the deduplicated sweeps of
///   the pieces;
/// - every cursor at or below the work index is consistent, the first
///   enumerating against the full board;
/// - below the work index every buffer entry holds a placement taken
///   from its slot's cursor, and each deeper cursor's board is the
///   one above it minus the cells placed there;
/// - the recorded solutions are distinct valid tilings.
pub open spec fn solver_wf(s: Solver) -> bool {
    let n = s.game.pieces@.len() as int;
    &&& s.pieces_permutations@.len() == n
    &&& s.placers@.len() == n
    &&& s.pieces@.len() == n
    &&& s.work_idx as int <= n
    &&& forall|i: int|
        0 <= i < n ==> pieces_view(#[trigger] s.pieces_permutations@[i]@) == dedup_first(
            orient_sweep(shape_canon(s.game.pieces@[i]@)),
        )
    &&& forall|i: int| 0 <= i < n ==> pieces_view(#[trigger] s.pieces_permutations@[i]@).len() > 0
    &&& forall|i: int|
        0 <= i <= s.work_idx as int && i < n ==> placer_wf(
            #[trigger] s.placers@[i],
            pieces_view(s.pieces_permutations@[i]@),
        )
    &&& (n > 0 ==> s.placers@[0].board@ == s.game.board@)
    &&& forall|i: int|
        0 <= i < s.work_idx as int ==> is_placement(
            (#[trigger] s.placers@[i]).board@,
            pieces_view(s.pieces_permutations@[i]@),
            s.pieces@[i]@,
        )
    &&& forall|i: int|
        1 <= i <= s.work_idx as int && i < n ==> (#[trigger] s.placers@[i]).board@ == remove_cells(
            s.placers@[i - 1].board@,
            s.pieces@[i - 1]@,
        )
    &&& no_dup_solutions(solutions_seq(s.solutions))
    &&& forall|k: int|
        0 <= k < solutions_seq(s.solutions).len() ==> valid_solution(
            s.game.board@,
            perms_list_view(s.pieces_permutations@),
            #[trigger] solutions_seq(s.solutions)[k],
        )
}

/// Deeper active boards are contained in shallower ones, and exclude
/// every cell already placed at the slots between them.
proof fn lemma_boards_nested(s: Solver, a: int, b: int)
    requires
        solver_wf(s),
        0 <= a <= b <= s.work_idx as int,
        b < s.placers@.len(),
    ensures
        forall|c: Axial|
            #[trigger] s.placers@[b].board@.contains(c) ==> s.placers@[a].board@.contains(c),
        forall|i: int, c: Axial|
            a <= i < b && #[trigger] s.pieces@[i]@.contains(c) ==> !s.placers@[b].board@.contains(
                c,
            ),
    decreases b - a,
{
    if a < b {
        lemma_boards_nested(s, a, b - 1);
        assert(s.placers@[b].board@ == remove_cells(s.placers@[b - 1].board@, s.pieces@[b - 1]@));
        assert forall|c: Axial| #[trigger] s.placers@[b].board@.contains(c) implies s.placers@[b
            - 1].board@.contains(c) && !s.pieces@[b - 1]@.contains(c) by {
            lemma_filter_subset(
                s.placers@[b - 1].board@,
                |c2: Axial| !s.pieces@[b - 1]@.contains(c2),
                c,
            );
        }
    }
}

/// At full depth, canonicalizing the working buffer slot by slot
/// gives a valid tiling of the board.
proof fn lemma_record_solution(s: Solver, sol: Seq<Seq<Axial>>)
    requires
        solver_wf(s),
        s.work_idx as int == s.game.pieces@.len(),
        sol.len() == s.pieces@.len(),
        forall|i: int| 0 <= i < sol.len() ==> sol[i] == place_canon(#[trigger] s.pieces@[i]@),
    ensures
        valid_solution(s.game.board@, perms_list_view(s.pieces_permutations@), sol),
{
    let n = s.game.pieces@.len() as int;
    let perms = perms_list_view(s.pieces_permutations@);
    assert forall|i: int, c: Axial|
        0 <= i < sol.len() && #[trigger] sol[i].contains(c) implies s.game.board@.contains(c) by {
        assert(sol[i] == place_canon(s.pieces@[i]@));
        lemma_place_canon_same_cells(s.pieces@[i]@);
        assert(s.pieces@[i]@.contains(c));
        assert(is_placement(
            s.placers@[i].board@,
            pieces_view(s.pieces_permutations@[i]@),
            s.pieces@[i]@,
        ));
        lemma_placement_in_board(
            s.placers@[i].board@,
            pieces_view(s.pieces_permutations@[i]@),
            s.pieces@[i]@,
        );
        assert(s.placers@[i].board@.contains(c));
        lemma_boards_nested(s, 0, i);
        assert(s.placers@[0].board@.contains(c));
    }
    assert forall|i1: int, i2: int, c: Axial|
        #![trigger sol[i1].contains(c), sol[i2].contains(c)]
        0 <= i1 < i2 < sol.len() && sol[i1].contains(c) implies !sol[i2].contains(c) by {
        assert(sol[i1] == place_canon(s.pieces@[i1]@));
        assert(sol[i2] == place_canon(s.pieces@[i2]@));
        lemma_place_canon_same_cells(s.pieces@[i1]@);
        lemma_place_canon_same_cells(s.pieces@[i2]@);
        assert(s.pieces@[i1]@.contains(c));
        lemma_boards_nested(s, i1, i2);
        assert(!s.placers@[i2].board@.contains(c));
        lemma_placement_in_board(
            s.placers@[i2].board@,
            pieces_view(s.pieces_permutations@[i2]@),
            s.pieces@[i2]@,
        );
        assert(!s.pieces@[i2]@.contains(c));
    }
    assert forall|i: int| 0 <= i < sol.len() implies is_canon_placement_of(
        perms[i],
        #[trigger] sol[i],
    ) by {
        let pv = pieces_view(s.pieces_permutations@[i]@);
        assert(is_placement(s.placers@[i].board@, pv, s.pieces@[i]@));
        let (j, sp) = choose|j: int, sp: Axial|
            0 <= j < pv.len() && #[trigger] crate::cells::spots_spec(
                s.placers@[i].board@,
                pv[j],
            ).contains(sp) && s.pieces@[i]@ == translate_spec(pv[j], sp);
        assert(sol[i] == place_canon(translate_spec(pv[j], sp)));
    }
    assert forall|i: int| 0 <= i < sol.len() implies perms[i].len() > 0 && (#[trigger] sol[i]).len()
        == perms[i][0].len() by {
        let pv = pieces_view(s.pieces_permutations@[i]@);
        assert(perms[i] == pv);
        assert(pv == dedup_first(orient_sweep(shape_canon(s.game.pieces@[i]@))));
        lemma_place_canon_same_cells(s.pieces@[i]@);
        assert(sol[i].len() == s.pieces@[i]@.len());
        assert(is_placement(s.placers@[i].board@, pv, s.pieces@[i]@));
        let (j, sp) = choose|j: int, sp: Axial|
            0 <= j < pv.len() && #[trigger] crate::cells::spots_spec(
                s.placers@[i].board@,
                pv[j],
            ).contains(sp) && s.pieces@[i]@ == translate_spec(pv[j], sp);
        assert(s.pieces@[i]@.len() == pv[j].len());
        crate::orient::lemma_orientation_lengths(s.game.pieces@[i]@, j);
        crate::orient::lemma_orientation_lengths(s.game.pieces@[i]@, 0);
        assert(pv[j].len() == s.game.pieces@[i]@.len());
        assert(pv[0].len() == s.game.pieces@[i]@.len());
    }
}

/// How many placements the cursor at slot `i` still has, capped at
/// the absolute per-slot bound.
#[verifier::opaque]
pub open spec fn slot_measure(placers: Seq<Placer>, perms: Seq<Vec<Vec<Axial>>>, i: int) -> int {
    let l = placer_remaining(placers[i], pieces_view(perms[i]@)).len() as int;
    if l > placer_slot_max() {
        placer_slot_max()
    } else {
        l
    }
}

/// The weight of one slot in the search measure: deeper slots weigh
/// less, so that consuming one placement outweighs refreshing every
/// deeper cursor.
pub open spec fn pow_weight(k: nat) -> int
    decreases k,
{
    if k == 0 {
        1
    } else {
        (placer_slot_max() + 1) * pow_weight((k - 1) as nat)
    }
}

/// The search measure from slot `i` on: the capped remaining counts,
/// weighted lexicographically.
#[verifier::opaque]
pub open spec fn measure_from(placers: Seq<Placer>, perms: Seq<Vec<Vec<Axial>>>, i: int) -> int
    decreases placers.len() - i,
{
    let n = placers.len() as int;
    if i < 0 || i >= n {
        0
    } else {
        slot_measure(placers, perms, i) * pow_weight((n - 1 - i) as nat) + measure_from(
            placers,
            perms,
            i + 1,
        )
    }
}

/// The search measure of the whole solver: it is finite, and every
/// successful step strictly decreases it, so stepping to exhaustion
/// terminates.
pub open spec fn solver_measure(s: Solver) -> int {
    measure_from(s.placers@, s.pieces_permutations@, 0)
}

proof fn lemma_pow_weight_pos(k: nat)
    ensures
        pow_weight(k) >= 1,
    decreases k,
{
    if k > 0 {
        lemma_pow_weight_pos((k - 1) as nat);
        assert((placer_slot_max() + 1) * pow_weight((k - 1) as nat) >= 1) by (nonlinear_arith)
            requires
                pow_weight((k - 1) as nat) >= 1,
                placer_slot_max() >= 0,
        ;
    }
}

/// The measure from slot `i` on is nonnegative and below the weight
/// one slot higher.
pub proof fn lemma_measure_from_bounds(placers: Seq<Placer>, perms: Seq<Vec<Vec<Axial>>>, i: int)
    requires
        0 <= i <= placers.len(),
    ensures
        0 <= measure_from(placers, perms, i) <= pow_weight((placers.len() - i) as nat) - 1,
    decreases placers.len() - i,
{
    reveal(crate::solver::measure_from);
    reveal(crate::solver::slot_measure);
    let n = placers.len() as int;
    if i == n {
    } else {
        lemma_measure_from_bounds(placers, perms, i + 1);
        let sm = slot_measure(placers, perms, i);
        let p = pow_weight((n - 1 - i) as nat);
        lemma_pow_weight_pos((n - 1 - i) as nat);
        assert(0 <= sm <= placer_slot_max());
        assert(0 <= sm * p) by (nonlinear_arith)
            requires
                sm >= 0,
                p >= 1,
        ;
        assert(sm * p <= placer_slot_max() * p) by (nonlinear_arith)
            requires
                sm <= placer_slot_max(),
                p >= 0,
        ;
        assert((placer_slot_max() + 1) * p == placer_slot_max() * p + p) by (nonlinear_arith);
        assert(pow_weight((n - i) as nat) == (placer_slot_max() + 1) * p);
    }
}

/// Equal slot measures from `i` on give equal measures from `i` on.
proof fn lemma_measure_from_equal(
    p1: Seq<Placer>,
    p2: Seq<Placer>,
    perms: Seq<Vec<Vec<Axial>>>,
    i: int,
)
    requires
        p1.len() == p2.len(),
        0 <= i <= p1.len(),
        forall|j: int|
            i <= j < p1.len() ==> #[trigger] slot_measure(p1, perms, j) == slot_measure(
                p2,
                perms,
                j,
            ),
    ensures
        measure_from(p1, perms, i) == measure_from(p2, perms, i),
    decreases p1.len() - i,
{
    reveal(crate::solver::measure_from);
    if i < p1.len() {
        lemma_measure_from_equal(p1, p2, perms, i + 1);
    }
}

/// If the slot measures agree everywhere except that slot `w`
/// strictly decreased (and slot `w + 1` may have changed arbitrarily
/// within its cap), the measure strictly decreases.
proof fn lemma_measure_decrease_from(
    p1: Seq<Placer>,
    p2: Seq<Placer>,
    perms: Seq<Vec<Vec<Axial>>>,
    i: int,
    w: int,
)
    requires
        p1.len() == p2.len(),
        0 <= i <= w < p1.len(),
        forall|j: int|
            i <= j < p1.len() && j != w && j != w + 1 ==> #[trigger] slot_measure(p1, perms, j)
                == slot_measure(p2, perms, j),
        slot_measure(p2, perms, w) < slot_measure(p1, perms, w),
    ensures
        measure_from(p2, perms, i) < measure_from(p1, perms, i),
    decreases w - i,
{
    reveal(crate::solver::measure_from);
    let n = p1.len() as int;
    if i == w {
        lemma_measure_from_bounds(p2, perms, w + 1);
        lemma_measure_from_bounds(p1, perms, w + 1);
        let p = pow_weight((n - 1 - w) as nat);
        lemma_pow_weight_pos((n - 1 - w) as nat);
        let sm1 = slot_measure(p1, perms, w);
        let sm2 = slot_measure(p2, perms, w);
        assert(measure_from(p2, perms, w + 1) <= pow_weight((n - w - 1) as nat) - 1);
        assert(pow_weight((n - (w + 1)) as nat) == p);
        assert(sm2 * p <= (sm1 - 1) * p) by (nonlinear_arith)
            requires
                sm2 <= sm1 - 1,
                p >= 0,
        ;
        assert((sm1 - 1) * p + p == sm1 * p) by (nonlinear_arith);
        assert(measure_from(p2, perms, w) <= sm2 * p + p - 1);
        assert(measure_from(p1, perms, w) >= sm1 * p);
    } else {
        lemma_measure_decrease_from(p1, p2, perms, i + 1, w);
        assert(slot_measure(p1, perms, i) == slot_measure(p2, perms, i));
    }
}

/// Consuming one placement at the work slot, while refreshing only
/// the next slot's cursor, strictly decreases the search measure.
pub proof fn lemma_advance_measure_decrease(pre: Solver, post: Solver, idx: int)
    requires
        solver_wf(pre),
        solver_wf(post),
        pre.placers@.len() == post.placers@.len(),
        pre.pieces_permutations == post.pieces_permutations,
        pre.work_idx == idx,
        post.work_idx == idx + 1,
        0 <= idx < pre.placers@.len(),
        forall|j: int|
            0 <= j < pre.placers@.len() && j != idx && j != idx + 1 ==> post.placers@[j]
                == pre.placers@[j],
        placer_remaining(post.placers@[idx], pieces_view(post.pieces_permutations@[idx]@))
            == placer_remaining(
            pre.placers@[idx],
            pieces_view(pre.pieces_permutations@[idx]@),
        ).skip(1),
        placer_remaining(pre.placers@[idx], pieces_view(pre.pieces_permutations@[idx]@)).len()
            > 0,
    ensures
        solver_measure(post) < solver_measure(pre),
{
    reveal(crate::solver::slot_measure);
    let perms = pre.pieces_permutations@;
    assert forall|j: int|
        0 <= j < pre.placers@.len() && j != idx && j != idx + 1 implies #[trigger] slot_measure(
        pre.placers@,
        perms,
        j,
    ) == slot_measure(post.placers@, perms, j) by {
        assert(post.placers@[j] == pre.placers@[j]);
    }
    lemma_slot_measure_is_remaining(pre, idx);
    lemma_slot_measure_is_remaining(post, idx);
    assert(slot_measure(post.placers@, perms, idx) < slot_measure(pre.placers@, perms, idx));
    lemma_measure_decrease_from(pre.placers@, post.placers@, perms, 0, idx);
}

/// A slot whose cursor was exhausted, and stays exhausted, leaves the
/// search measure unchanged.
pub proof fn lemma_advance_measure_equal(pre: Solver, post: Solver, idx: int)
    requires
        pre.placers@.len() == post.placers@.len(),
        pre.pieces_permutations == post.pieces_permutations,
        0 <= idx < pre.placers@.len(),
        forall|j: int|
            0 <= j < pre.placers@.len() && j != idx ==> post.placers@[j] == pre.placers@[j],
        placer_remaining(pre.placers@[idx], pieces_view(pre.pieces_permutations@[idx]@)).len()
            == 0,
        placer_remaining(post.placers@[idx], pieces_view(post.pieces_permutations@[idx]@)).len()
            == 0,
    ensures
        solver_measure(post) == solver_measure(pre),
{
    reveal(crate::solver::slot_measure);
    let perms = pre.pieces_permutations@;
    assert forall|j: int| 0 <= j < pre.placers@.len() implies #[trigger] slot_measure(
        post.placers@,
        perms,
        j,
    ) == slot_measure(pre.placers@, perms, j) by {
        if j != idx {
            assert(post.placers@[j] == pre.placers@[j]);
        }
    }
    lemma_measure_from_equal(post.placers@, pre.placers@, perms, 0);
}

/// For a consistent solver, the cap on an active slot's measure is
/// not hit: the slot measure is exactly its remaining placement
/// count.
proof fn lemma_slot_measure_is_remaining(s: Solver, i: int)
    requires
        solver_wf(s),
        0 <= i <= s.work_idx as int,
        i < s.placers@.len(),
    ensures
        slot_measure(s.placers@, s.pieces_permutations@, i) == placer_remaining(
            s.placers@[i],
            pieces_view(s.pieces_permutations@[i]@),
        ).len(),
{
    reveal(crate::solver::slot_measure);
    let pv = pieces_view(s.pieces_permutations@[i]@);
    crate::orient::lemma_dedup_first_len_le(orient_sweep(shape_canon(s.game.pieces@[i]@)));
    assert(pv.len() <= 14);
    crate::placer::lemma_remaining_len_bound(s.placers@[i], pv);
}

impl Game {
    /// The empty puzzle.
    pub fn new() -> (r: Self)
        ensures
            r.board@ == Seq::<Axial>::empty(),
            r.pieces@ == Seq::<Vec<Axial>>::empty(),
    {
        Game { board: Vec::new(), pieces: Vec::new() }
    }

    /// A fresh solver for this puzzle.
    pub fn solver(self) -> (r: Solver)
        ensures
            solver_wf(r),
            r.game == self,
            r.work_idx == 0,
            solutions_seq(r.solutions) == Seq::<Seq<Seq<Axial>>>::empty(),
            self.pieces@.len() > 0 ==> placer_remaining(
                r.placers@[0],
                pieces_view(r.pieces_permutations@[0]@),
            ) == crate::placer::placements_from(
                self.board@,
                pieces_view(r.pieces_permutations@[0]@),
                0,
            ),
    {
        Solver::new(self)
    }
}

impl Solver {
    /// A fresh solver: the orientation lists are precomputed, the
    /// first slot's cursor enumerates against the full board, no
    /// solution is recorded yet.
    pub fn new(game: Game) -> (r: Self)
        ensures
            solver_wf(r),
            r.game == game,
            r.work_idx == 0,
            solutions_seq(r.solutions) == Seq::<Seq<Seq<Axial>>>::empty(),
            pieces_view(r.pieces@) == pieces_view(game.pieces@),
            game.pieces@.len() > 0 ==> placer_remaining(
                r.placers@[0],
                pieces_view(r.pieces_permutations@[0]@),
            ) == crate::placer::placements_from(
                game.board@,
                pieces_view(r.pieces_permutations@[0]@),
                0,
            ),
    {
        let n = game.pieces.len();
        let mut perms_list: Vec<Vec<Vec<Axial>>> = Vec::new();
        let mut i: usize = 0;
        while i < n
            invariant
                n == game.pieces@.len(),
                i <= n,
                perms_list@.len() == i,
                forall|k: int|
                    0 <= k < i ==> pieces_view(#[trigger] perms_list@[k]@) == dedup_first(
                        orient_sweep(shape_canon(game.pieces@[k]@)),
                    ),
                forall|k: int| 0 <= k < i ==> pieces_view(#[trigger] perms_list@[k]@).len() > 0,
            decreases n - i,
        {
            let p = piece_permutations(copy_cells(&game.pieces[i]));
            proof {
                lemma_dedup_first_nonempty(orient_sweep(shape_canon(game.pieces@[i as int]@)));
            }
            perms_list.push(p);
            i = i + 1;
        }
        let mut placers: Vec<Placer> = Vec::new();
        if n > 0 {
            placers.push(Placer::new(copy_cells(&game.board), &perms_list[0]));
        }
        let mut j: usize = placers.len();
        while j < n
            invariant
                n == game.pieces@.len(),
                j <= n,
                placers@.len() == j,
                n > 0 ==> j >= 1,
                n > 0 ==> placers@[0].board@ == game.board@ && placer_wf(
                    placers@[0],
                    pieces_view(perms_list@[0]@),
                ),
                n > 0 ==> placer_remaining(placers@[0], pieces_view(perms_list@[0]@))
                    == crate::placer::placements_from(
                    game.board@,
                    pieces_view(perms_list@[0]@),
                    0,
                ),
            decreases n - j,
        {
            placers.push(Placer::default());
            j = j + 1;
        }
        let mut pieces: Vec<Vec<Axial>> = Vec::new();
        let mut k: usize = 0;
        while k < n
            invariant
                n == game.pieces@.len(),
                k <= n,
                pieces@.len() == k,
                forall|m: int| 0 <= m < k ==> (#[trigger] pieces@[m])@ == game.pieces@[m]@,
            decreases n - k,
        {
            pieces.push(copy_cells(&game.pieces[k]));
            k = k + 1;
        }
        let r = Solver {
            pieces_permutations: perms_list,
            placers,
            pieces,
            solutions: solutions_new(),
            work_idx: 0,
            game,
        };
        proof {
            assert(pieces_view(r.pieces@) =~= pieces_view(r.game.pieces@));
        }
        r
    }

    /// The recorded solutions, in discovery order.
    pub fn solutions_list(&self) -> (r: Vec<Vec<Vec<Axial>>>)
        ensures
            solutions_list_view(r@) == solutions_seq(self.solutions),
    {
        solutions_to_vec(&self.solutions)
    }

    /// How many solutions have been recorded.
    pub fn solution_count(&self) -> (r: usize)
        ensures
            r == solutions_seq(self.solutions).len(),
    {
        solutions_len(&self.solutions)
    }

    /// Record the completed tiling held in the working buffer:
    /// canonicalize each placed piece and insert the list into the
    /// solution set, at the end, unless an equal solution is already
    /// held.
    fn record_solution(&mut self)
        requires
            solver_wf(*old(self)),
            old(self).work_idx == old(self).placers@.len(),
            old(self).placers@.len() > 0,
        ensures
            solver_wf(*final(self)),
            final(self).game == old(self).game,
            final(self).pieces_permutations == old(self).pieces_permutations,
            final(self).placers == old(self).placers,
            final(self).pieces == old(self).pieces,
            final(self).work_idx == old(self).work_idx,
            solutions_seq(final(self).solutions) == step_solutions(*old(self)),
    {
        let m = self.pieces.len();
        let mut sol: Vec<Vec<Axial>> = Vec::new();
        let mut i: usize = 0;
        while i < m
            invariant
                m == self.pieces@.len(),
                i <= m,
                sol@.len() == i,
                forall|k: int|
                    0 <= k < i ==> (#[trigger] sol@[k])@ == place_canon(self.pieces@[k]@),
            decreases m - i,
        {
            let mut c = copy_cells(&self.pieces[i]);
            canonicalize_place(&mut c);
            sol.push(c);
            i = i + 1;
        }
        proof {
            assert(pieces_view(sol@) =~= canon_buffer(*old(self)));
            lemma_record_solution(*self, pieces_view(sol@));
        }
        let inserted = solutions_insert(&mut self.solutions, sol);
        proof {
            assert(solver_wf(*self));
        }
    }

    /// Advance the search by exactly one placement. Returns true when
    /// a placement was made, false when the search space is
    /// exhausted: true exactly when some cursor at or below the work
    /// index still had a placement. On true, the deepest live slot
    /// received the head of its remaining placements and the work
    /// index stands just past it; on false, every active cursor was
    /// exhausted at entry and stays so. A completed tiling found on
    /// the way is recorded exactly once, without counting as a step
    /// of its own, and every placement-reporting step strictly
    /// decreases the finite search measure.
    #[verifier::rlimit(100)]
    pub fn step(&mut self) -> (r: bool)
        requires
            solver_wf(*old(self)),
        ensures
            solver_wf(*final(self)),
            final(self).game == old(self).game,
            final(self).pieces_permutations == old(self).pieces_permutations,
            final(self).placers@.len() == old(self).placers@.len(),
            solutions_seq(final(self).solutions) == step_solutions(*old(self)),
            r == step_live(*old(self)),
            r ==> step_placed(*old(self), *final(self)),
            r ==> solver_measure(*final(self)) < solver_measure(*old(self)),
            !r ==> step_exhausted(*old(self), *final(self)),
    {
        loop
            invariant
                solver_wf(*self),
                self.game == old(self).game,
                self.pieces_permutations == old(self).pieces_permutations,
                self.placers@.len() == old(self).placers@.len(),
                self.work_idx <= old(self).work_idx,
                old(self).work_idx as int <= old(self).placers@.len(),
                self.pieces@ == old(self).pieces@,
                solver_measure(*self) == solver_measure(*old(self)),
                forall|i: int|
                    0 <= i <= self.work_idx as int && i < self.placers@.len()
                        ==> self.placers@[i] == old(self).placers@[i],
                forall|i: int|
                    (self.work_idx as int) < i <= old(self).work_idx as int && i
                        < self.placers@.len() ==> placer_remaining(
                        #[trigger] old(self).placers@[i],
                        pieces_view(old(self).pieces_permutations@[i]@),
                    ).len() == 0,
                if self.work_idx as int == self.placers@.len() && self.placers@.len() > 0 {
                    solutions_seq(self.solutions) == solutions_seq(old(self).solutions)
                } else {
                    solutions_seq(self.solutions) == step_solutions(*old(self))
                },
            decreases self.work_idx,
        {
            let idx = self.work_idx;
            let ghost pre = *self;
            if idx < self.placers.len() {
                let mut placer = Placer::default();
                self.placers.set_and_swap(idx, &mut placer);
                let mut placed: Vec<Axial> = Vec::new();
                self.pieces.set_and_swap(idx, &mut placed);
                let ok = placer.next_place(&mut placed, &self.pieces_permutations[idx]);
                self.pieces.set_and_swap(idx, &mut placed);
                self.placers.set_and_swap(idx, &mut placer);
                proof {
                    assert(self.placers@ =~= pre.placers@.update(
                        idx as int,
                        self.placers@[idx as int],
                    ));
                    assert(self.pieces@ =~= pre.pieces@.update(
                        idx as int,
                        self.pieces@[idx as int],
                    ));
                    assert(self.placers@[idx as int].board@ == pre.placers@[idx as int].board@);
                    assert(pre.placers@[idx as int] == old(self).placers@[idx as int]);
                }
                if ok {
                    self.work_idx = idx + 1;
                    if idx + 1 < self.placers.len() {
                        let mut board = copy_cells(&self.placers[idx].board);
                        place(&mut board, &self.pieces[idx]);
                        let fresh = Placer::new(board, &self.pieces_permutations[idx + 1]);
                        self.placers.set(idx + 1, fresh);
                    }
                    proof {
                        assert(solver_wf(*self)) by {
                            assert(self.placers@[idx as int].board@ == pre.placers@[idx
                                as int].board@);
                        }
                        let pvk = pieces_view(self.pieces_permutations@[idx as int]@);
                        assert(placer_remaining(old(self).placers@[idx as int], pvk).len() > 0);
                        assert(step_live(*old(self))) by {
                            assert(placer_remaining(old(self).placers@[idx as int], pvk).len()
                                > 0);
                        }
                        assert(placer_remaining(self.placers@[idx as int], pvk)
                            == placer_remaining(old(self).placers@[idx as int], pvk).skip(1));
                        assert(step_placed(*old(self), *self)) by {
                            assert(self.pieces@[idx as int]@ == placer_remaining(
                                old(self).placers@[idx as int],
                                pvk,
                            )[0]);
                        }
                        assert(solver_measure(*self) < solver_measure(pre)) by {
                            lemma_advance_measure_decrease(pre, *self, idx as int);
                        }
                    }
                    return true;
                }
                proof {
                    assert(self.pieces@ =~= pre.pieces@);
                    let pvk = pieces_view(self.pieces_permutations@[idx as int]@);
                    assert(placer_remaining(old(self).placers@[idx as int], pvk).len() == 0);
                    assert(placer_remaining(self.placers@[idx as int], pvk) =~= Seq::<
                        Seq<Axial>,
                    >::empty()) by {
                        reveal(crate::placer::placer_remaining);
                    }
                    assert(solver_measure(*self) == solver_measure(pre)) by {
                        lemma_advance_measure_equal(pre, *self, idx as int);
                    }
                }
                if idx == 0 {
                    proof {
                        assert(solver_wf(*self)) by {
                        }
                        assert(!step_live(*old(self))) by {
                        }
                        assert(step_exhausted(*old(self), *self)) by {
                        }
                    }
                    return false;
                }
                self.work_idx = idx - 1;
                proof {
                    assert(solver_wf(*self)) by {
                    }
                }
            } else {
                if idx == 0 {
                    // an empty puzzle: nothing to place, nothing to record
                    proof {
                        assert(!step_live(*old(self))) by {
                        }
                        assert(step_exhausted(*old(self), *self)) by {
                        }
                    }
                    return false;
                }
                proof {
                    assert(old(self).work_idx == idx);
                }
                self.record_solution();
                proof {
                    assert(canon_buffer(pre) =~= canon_buffer(*old(self)));
                    assert(solutions_seq(self.solutions) == step_solutions(*old(self))) by {
                    }
                }
                self.work_idx = idx - 1;
                proof {
                    assert(solver_wf(*self)) by {
                    }
                }
            }
        }
    }

    /// Run the step operation to exhaustion. The search always
    /// terminates: every placement-reporting step strictly decreases
    /// the finite search measure, which is bounded below.
    pub fn run_to_exhaustion(&mut self)
        requires
            solver_wf(*old(self)),
        ensures
            solver_wf(*final(self)),
            final(self).game == old(self).game,
            final(self).pieces_permutations == old(self).pieces_permutations,
            final(self).work_idx == 0,
            !step_live(*final(self)),
    {
        loop
            invariant
                solver_wf(*self),
                self.game == old(self).game,
                self.pieces_permutations == old(self).pieces_permutations,
            decreases solver_measure(*self),
        {
            proof {
                lemma_measure_from_bounds(self.placers@, self.pieces_permutations@, 0);
            }
            let more = self.step();
            proof {
                lemma_measure_from_bounds(self.placers@, self.pieces_permutations@, 0);
            }
            if !more {
                return;
            }
        }
    }
}

} // verus!
