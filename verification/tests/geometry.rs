use ubongo_extreme_solver::{
    aabb, canonicalize_place, canonicalize_shape, contains_cell, fits_at, flip, min,
    piece_permutations, place, rotate, rotate_many, spot_candidates, spots, translate, Axial,
    Cube, Game,
};

#[test]
fn key_packs_r_high_q_low() {
    assert_eq!(Axial(3, 2).key(), (2u64 << 32) | 3u64);
    assert_eq!(Axial(0, 0).key(), 0u64);
    assert_eq!(Axial(-1, -1).key(), u64::MAX);
    assert_eq!(Axial(-2, 4).key(), (4u64 << 32) | 0xFFFF_FFFEu64);
    // the order used by canonical forms: row first, then column
    assert!(Axial(3, 2).key() < Axial(0, 3).key());
    assert!(Axial(-3, 5).key() < Axial(-2, 5).key());
}

#[test]
fn axial_operations() {
    assert_eq!(Axial::splat(7), Axial(7, 7));
    assert_eq!(Axial(1, 2).wrapping_add(Axial(3, 4)), Axial(4, 6));
    assert_eq!(Axial(1, 2).wrapping_sub(Axial(3, 4)), Axial(-2, -2));
    assert_eq!(Axial(1, 2).min(Axial(2, 1)), Axial(1, 1));
    assert_eq!(Axial(1, 2).max(Axial(2, 1)), Axial(2, 2));
    assert_eq!(Axial(1, 2).flip(), Axial(3, -2));
    // wrapping is the defined overflow policy
    assert_eq!(Axial(i32::MAX, 0).wrapping_add(Axial(1, 0)), Axial(i32::MIN, 0));
}

#[test]
fn rotation_cycles_after_six_turns() {
    assert_eq!(Axial(1, 0).rotate(Axial(0, 0)), Axial(1, -1));
    let start = Axial(2, -1);
    let mut c = start;
    for _ in 0..6 {
        c = c.rotate(Axial(0, 0));
    }
    assert_eq!(c, start);
    assert_eq!(start.rotate_many(Axial(0, 0), 6), start);
    assert_eq!(start.rotate_many(Axial(0, 0), 2), start.rotate(Axial(0, 0)).rotate(Axial(0, 0)));
    // rotating about a pivot keeps the pivot fixed
    let pivot = Axial(3, 3);
    assert_eq!(pivot.rotate(pivot), pivot);
    assert_eq!(Cube(1, -1, 0).rotate(Cube(0, 0, 0)), Cube(1, 0, -1));
}

#[test]
fn cell_set_operations() {
    let mut v = vec![Axial(0, 0), Axial(1, 0)];
    translate(&mut v, Axial(2, 3));
    assert_eq!(v, vec![Axial(2, 3), Axial(3, 3)]);

    let mut w = vec![Axial(1, 0)];
    rotate(&mut w);
    assert_eq!(w, vec![Axial(1, -1)]);

    let mut x = vec![Axial(1, 0)];
    rotate_many(&mut x, 6);
    assert_eq!(x, vec![Axial(1, 0)]);

    let mut y = vec![Axial(1, 2)];
    flip(&mut y);
    assert_eq!(y, vec![Axial(3, -2)]);

    let v2 = vec![Axial(4, -1), Axial(-2, 3), Axial(0, 0)];
    assert_eq!(min(&v2), Axial(-2, -1));
    let bb = aabb(&v2);
    assert_eq!(bb.min, Axial(-2, -1));
    assert_eq!(bb.max, Axial(4, 3));
    assert_eq!(bb.size(), Axial(6, 4));

    assert!(contains_cell(&v2, Axial(0, 0)));
    assert!(!contains_cell(&v2, Axial(1, 1)));
}

#[test]
fn candidates_and_spots() {
    let board = vec![Axial(0, 0), Axial(1, 0), Axial(0, 1), Axial(1, 1)];
    let piece = vec![Axial(0, 0), Axial(1, 0)];
    // wiggle box: 1 x 2 offsets, scanned row-major
    let cand = spot_candidates(&board, &piece);
    assert_eq!(cand, vec![Axial(0, 0), Axial(0, 1)]);
    let s = spots(&board, &piece);
    assert_eq!(s, vec![Axial(0, 0), Axial(0, 1)]);

    // an offset is accepted only when every translated cell is on the board
    let l_board = vec![Axial(0, 0), Axial(1, 0), Axial(0, 1)];
    let s2 = spots(&l_board, &piece);
    assert_eq!(s2, vec![Axial(0, 0)]);
    assert!(fits_at(&l_board, &piece, Axial(0, 0)));
    assert!(!fits_at(&l_board, &piece, Axial(0, 1)));

    // a piece larger than the board has no candidates at all
    let big = vec![Axial(0, 0), Axial(1, 0), Axial(2, 0), Axial(3, 0)];
    assert_eq!(spot_candidates(&l_board, &big), vec![]);
}

#[test]
fn place_removes_piece_cells() {
    let mut board = vec![Axial(0, 0), Axial(1, 0), Axial(0, 1), Axial(1, 1)];
    place(&mut board, &vec![Axial(1, 0), Axial(0, 1)]);
    assert_eq!(board, vec![Axial(0, 0), Axial(1, 1)]);
}

#[test]
fn canonicalize_place_is_idempotent() {
    let mut v = vec![Axial(2, 0), Axial(0, 1), Axial(1, 0), Axial(0, 0)];
    canonicalize_place(&mut v);
    assert_eq!(v, vec![Axial(0, 0), Axial(1, 0), Axial(2, 0), Axial(0, 1)]);
    let once = v.clone();
    canonicalize_place(&mut v);
    assert_eq!(v, once);
}

#[test]
fn canonicalize_place_is_order_invariant() {
    let mut a = vec![Axial(5, -3), Axial(-1, 2), Axial(0, 0)];
    let mut b = vec![Axial(0, 0), Axial(5, -3), Axial(-1, 2)];
    canonicalize_place(&mut a);
    canonicalize_place(&mut b);
    assert_eq!(a, b);
}

#[test]
fn canonicalize_shape_is_translation_invariant() {
    let base = vec![Axial(0, 0), Axial(1, 0), Axial(2, 0), Axial(2, 1)];
    let mut a = base.clone();
    let mut b = base.clone();
    translate(&mut b, Axial(-17, 23));
    canonicalize_shape(&mut a);
    canonicalize_shape(&mut b);
    assert_eq!(a, b);
    let mut c = base.clone();
    canonicalize_shape(&mut c);
    assert_eq!(a, c);
}

#[test]
fn single_cell_has_one_orientation() {
    let perms = piece_permutations(vec![Axial(40, -12)]);
    assert_eq!(perms, vec![vec![Axial(0, 0)]]);
}

#[test]
fn empty_game_is_immediately_exhausted() {
    let mut solver = Game::new().solver();
    assert!(!solver.step());
    // a degenerate puzzle is a plain "no solutions" outcome
    assert_eq!(solver.solution_count(), 0);
    // exhaustion is terminal
    assert!(!solver.step());
}

#[test]
fn unsolvable_game_yields_no_solutions() {
    // a piece that can never fit on the board: immediate exhaustion
    let game = Game {
        board: vec![Axial(0, 0), Axial(1, 0)],
        pieces: vec![vec![Axial(0, 0), Axial(1, 0), Axial(2, 0)]],
    };
    let mut solver = game.solver();
    let mut steps = 0usize;
    while solver.step() {
        steps += 1;
        assert!(steps < 1000);
    }
    assert_eq!(solver.solution_count(), 0);
    assert_eq!(solver.solutions_list(), Vec::<Vec<Vec<Axial>>>::new());
}

#[test]
fn single_piece_exact_cover() {
    // one piece that is the whole board, up to rotation
    let game = Game {
        board: vec![Axial(0, 0), Axial(1, 0), Axial(2, 0)],
        pieces: vec![vec![Axial(0, 0), Axial(0, 1), Axial(0, 2)]],
    };
    let mut solver = game.solver();
    solver.run_to_exhaustion();
    let solutions = solver.solutions_list();
    assert_eq!(solutions, vec![vec![vec![Axial(0, 0), Axial(1, 0), Axial(2, 0)]]]);
    assert_eq!(solver.solution_count(), 1);
}
