//! An exact-cover backtracking engine that tiles a finite hexagonal
//! board with a fixed set of polyhex pieces. Each piece may be used in
//! any of its symmetry-distinct orientations; the search advances one
//! placement at a time so a caller can observe intermediate state, and
//! all distinct solutions are collected in discovery order.

pub mod axial;
pub mod cells;
pub mod cube;
pub mod laws;
pub mod orient;
pub mod placer;
pub mod solutions;
pub mod solver;

pub use axial::Axial;
pub use axial::AxialAabb;
pub use cube::Cube;
pub use cells::aabb;
pub use cells::canonicalize_place;
pub use cells::canonicalize_shape;
pub use cells::contains_cell;
pub use cells::fits_at;
pub use cells::flip;
pub use cells::min;
pub use cells::place;
pub use cells::rotate;
pub use cells::rotate_many;
pub use cells::spot_candidates;
pub use cells::spots;
pub use cells::translate;
pub use orient::piece_permutations;
pub use placer::Placer;
pub use solver::Game;
pub use solver::Solver;
