use rand::seq::SliceRandom;
use rand::RngExt;

use ubongo_extreme_solver::{
    canonicalize_place, canonicalize_shape, piece_permutations, Axial, Game, Solver,
};

fn random_piece() -> Vec<Axial> {
    let mut rng = rand::rng();
    let mut piece = vec![];

    for _ in 0..rng.random_range(2..12) {
        piece.push(Axial(rng.random_range(-100..100), rng.random_range(-100..100)));
    }

    piece
}

#[test]
fn canonical() {
    let mut rng = rand::rng();

    for _ in 0..1_000 {
        let original = random_piece();

        for _ in 1..6 {
            let mut shuffled = original.clone();
            shuffled.shuffle(&mut rng);

            let mut original_canon = original.clone();
            let mut shuffled_canon = shuffled.clone();

            canonicalize_place(&mut original_canon);
            canonicalize_place(&mut shuffled_canon);

            let mut shuffled_canon_again = shuffled_canon.clone();
            canonicalize_place(&mut shuffled_canon_again);

            assert_eq!(original_canon, shuffled_canon);
            assert_eq!(shuffled_canon, shuffled_canon_again);
        }
    }
}

fn index_to_name(i: usize) -> char {
    char::from_u32(97 + i as u32).unwrap()
}

fn debug_mutator(pieces: Vec<Vec<Axial>>, f: fn(&mut Vec<Axial>)) {
    let mut modified = vec![];

    for (i, piece) in pieces.iter().enumerate() {
        let name = index_to_name(i);
        println!("{name}:   {piece:?}");

        let mut canon = piece.clone();
        f(&mut canon);
        modified.push(canon);
    }

    let mut keys = vec![];

    for (i, piece) in modified.iter().enumerate() {
        let name = index_to_name(i);
        println!("{name}_m: {piece:?}");

        let key = piece.iter().copied().map(Axial::key).collect::<Vec<_>>();
        keys.push(key);
    }

    for (i, key) in keys.iter().enumerate() {
        let name = index_to_name(i);
        println!("{name}_k: {key:?}");
    }
}

#[test]
fn canonical_debug() {
    debug_mutator(
        vec![
            vec![Axial(2, 0), Axial(1, 0), Axial(0, 0), Axial(1, 1), Axial(0, 1)],
            vec![Axial(0, 0), Axial(1, 0), Axial(2, 0), Axial(0, 1), Axial(1, 1)],
        ],
        canonicalize_place,
    );
}

const MAX_STEPS: usize = 1_000_000;

fn solve_game(game: Game) -> Vec<Vec<Vec<Axial>>> {
    let mut solver = game.solver();
    let mut step_count: usize = 0;

    while solver.step() {
        step_count += 1;
        if step_count >= MAX_STEPS {
            panic!("steps count exceeded {MAX_STEPS}");
        }
    }

    println!("this took {step_count} steps");
    solver.solutions_list()
}

fn test_perms(len: usize, piece: Vec<Axial>) {
    println!("===============================================================");
    println!("    {piece:?}");
    let permutations = piece_permutations(piece);

    for (i, perm) in permutations.iter().enumerate() {
        println!("{i:2}: {perm:?}");
    }

    assert_eq!(len, permutations.len());
}

#[test]
fn permutations() {
    test_perms(12, vec![Axial(0, 0), Axial(1, 0), Axial(2, 0), Axial(2, 1)]);
    test_perms(3, vec![Axial(0, 0), Axial(1, 0), Axial(0, 1), Axial(1, 1)]);
    test_perms(3, vec![Axial(0, 0), Axial(1, 0), Axial(2, 0)]);
    test_perms(3, vec![Axial(0, 0), Axial(1, 0)]);
    test_perms(1, vec![Axial(0, 0)]);
}

#[test]
fn canon_simple() {
    let mut a = vec![Axial(0, 0), Axial(1, 0), Axial(0, 1), Axial(1, 1)];
    let mut b = vec![Axial(0, 1), Axial(1, 1), Axial(0, 0), Axial(1, 0)];
    canonicalize_shape(&mut a);
    canonicalize_shape(&mut b);
    assert_eq!(a, b);
}

fn cells(raw: &[[i32; 2]]) -> Vec<Axial> {
    raw.iter().map(|c| Axial(c[0], c[1])).collect()
}

/// The four-piece board whose single tiling is known exactly, built
/// from its recorded tiling: the board is the union of the placed
/// pieces.
fn b4_game() -> Game {
    let pieces: Vec<Vec<Axial>> = vec![
        cells(&[[3, 2], [0, 3], [1, 3], [2, 3]]),
        cells(&[[0, 0], [1, 0], [2, 0], [0, 1], [1, 1]]),
        cells(&[[4, 0], [3, 1], [4, 1], [4, 2], [3, 3]]),
        cells(&[[3, 0], [2, 1], [0, 2], [1, 2], [2, 2]]),
    ];
    let mut board = vec![];
    for p in &pieces {
        board.extend(p.iter().copied());
    }
    Game { board, pieces }
}

#[test]
fn b4() {
    let solutions = solve_game(b4_game());
    let expected = vec![vec![
        cells(&[[3, 2], [0, 3], [1, 3], [2, 3]]),
        cells(&[[0, 0], [1, 0], [2, 0], [0, 1], [1, 1]]),
        cells(&[[4, 0], [3, 1], [4, 1], [4, 2], [3, 3]]),
        cells(&[[3, 0], [2, 1], [0, 2], [1, 2], [2, 2]]),
    ]];
    assert_eq!(solutions, expected);
}

/// The four-piece board with exactly four distinct tilings, built
/// from the first of its recorded tilings.
fn b38y_game() -> Game {
    let pieces: Vec<Vec<Axial>> = vec![
        cells(&[[-2, 4], [-3, 5], [-2, 5], [-3, 6]]),
        cells(&[[0, 0], [-1, 1], [-2, 2], [-1, 2]]),
        cells(&[[0, 1], [0, 2], [0, 3], [-1, 3], [-1, 4]]),
        cells(&[[-3, 3], [-2, 3], [-3, 4], [-4, 5], [-4, 6]]),
    ];
    let mut board = vec![];
    for p in &pieces {
        board.extend(p.iter().copied());
    }
    Game { board, pieces }
}

fn b38y_expected() -> Vec<Vec<Vec<Axial>>> {
    vec![
        vec![
            cells(&[[-2, 4], [-3, 5], [-2, 5], [-3, 6]]),
            cells(&[[0, 0], [-1, 1], [-2, 2], [-1, 2]]),
            cells(&[[0, 1], [0, 2], [0, 3], [-1, 3], [-1, 4]]),
            cells(&[[-3, 3], [-2, 3], [-3, 4], [-4, 5], [-4, 6]]),
        ],
        vec![
            cells(&[[-4, 5], [-3, 5], [-4, 6], [-3, 6]]),
            cells(&[[0, 1], [0, 2], [0, 3], [-1, 3]]),
            cells(&[[0, 0], [-1, 1], [-2, 2], [-1, 2], [-2, 3]]),
            cells(&[[-3, 3], [-3, 4], [-2, 4], [-1, 4], [-2, 5]]),
        ],
        vec![
            cells(&[[-4, 5], [-3, 5], [-4, 6], [-3, 6]]),
            cells(&[[0, 0], [0, 1], [-1, 1], [0, 2]]),
            cells(&[[-2, 2], [-1, 2], [0, 3], [-2, 3], [-1, 3]]),
            cells(&[[-3, 3], [-3, 4], [-2, 4], [-1, 4], [-2, 5]]),
        ],
        vec![
            cells(&[[-4, 5], [-3, 5], [-4, 6], [-3, 6]]),
            cells(&[[0, 0], [0, 1], [-1, 1], [0, 2]]),
            cells(&[[-3, 3], [-2, 3], [-3, 4], [-2, 4], [-2, 5]]),
            cells(&[[-2, 2], [-1, 2], [0, 3], [-1, 3], [-1, 4]]),
        ],
    ]
}

#[test]
fn b38y() {
    let solutions = solve_game(b38y_game());
    let expected = b38y_expected();
    // The puzzle here is rebuilt from its first recorded tiling, so the
    // input pieces stand in a different orientation than the lost
    // original definition; that permutes the discovery order but fixes
    // the same set of tilings. The four recorded tilings must all
    // appear, exactly once each, and the order must be reproducible.
    assert_eq!(solutions.len(), 4);
    for sol in &expected {
        assert!(solutions.contains(sol), "missing expected tiling: {sol:?}");
    }
    let again = solve_game(b38y_game());
    assert_eq!(solutions, again);
}
