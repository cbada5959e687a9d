use vstd::prelude::*;

use crate::axial::Axial;

verus! {

/// The redundant cube encoding `(x, y, z)` of a hexagonal cell, with
/// `x + y + z == 0` up to wrapping. It exists to express a 60-degree
/// rotation as a cyclic permutation of the components with sign flips.
#[derive(Clone, Copy, Debug, PartialEq, Eq, Structural, Hash)]
pub struct Cube(pub i32, pub i32, pub i32);

/// The cube encoding of an axial coordinate (wrapping).
pub open spec fn cube_of_axial(a: Axial) -> Cube {
    Cube(a.0, (0i32).wrapping_sub(a.0).wrapping_sub(a.1), a.1)
}

/// The axial coordinate of a cube encoding.
pub open spec fn axial_of_cube(c: Cube) -> Axial {
    Axial(c.0, c.2)
}

/// Component-wise wrapping sum.
pub open spec fn cube_add(a: Cube, b: Cube) -> Cube {
    Cube(a.0.wrapping_add(b.0), a.1.wrapping_add(b.1), a.2.wrapping_add(b.2))
}

/// Component-wise wrapping difference.
pub open spec fn cube_sub(a: Cube, b: Cube) -> Cube {
    Cube(a.0.wrapping_sub(b.0), a.1.wrapping_sub(b.1), a.2.wrapping_sub(b.2))
}

/// One 60-degree rotation of a cube vector about the origin: a cyclic
/// permutation of the components, each negated (wrapping).
pub open spec fn cube_turn(c: Cube) -> Cube {
    Cube((0i32).wrapping_sub(c.1), (0i32).wrapping_sub(c.2), (0i32).wrapping_sub(c.0))
}

/// `n` successive 60-degree rotations of a cube vector about the origin.
pub open spec fn cube_turn_many(c: Cube, n: nat) -> Cube
    decreases n,
{
    if n == 0 {
        c
    } else {
        cube_turn_many(cube_turn(c), (n - 1) as nat)
    }
}

/// One 60-degree rotation about `pivot`.
pub open spec fn cube_rotate(c: Cube, pivot: Cube) -> Cube {
    cube_add(pivot, cube_turn(cube_sub(c, pivot)))
}

/// `n` successive 60-degree rotations about `pivot`.
pub open spec fn cube_rotate_many(c: Cube, pivot: Cube, n: nat) -> Cube {
    cube_add(cube_turn_many(cube_sub(c, pivot), n), pivot)
}

impl Cube {
    /// The cube encoding of an axial coordinate.
    pub fn from_axial(a: Axial) -> (r: Self)
        ensures
            r == cube_of_axial(a),
    {
        Cube(a.0, (0i32).wrapping_sub(a.0).wrapping_sub(a.1), a.1)
    }

    /// The axial coordinate of this cube encoding.
    pub fn to_axial(self) -> (r: Axial)
        ensures
            r == axial_of_cube(self),
    {
        Axial(self.0, self.2)
    }

    /// Component-wise wrapping sum.
    pub fn wrapping_add(self, other: Self) -> (r: Self)
        ensures
            r == cube_add(self, other),
    {
        Cube(
            self.0.wrapping_add(other.0),
            self.1.wrapping_add(other.1),
            self.2.wrapping_add(other.2),
        )
    }

    /// Component-wise wrapping difference.
    pub fn wrapping_sub(self, other: Self) -> (r: Self)
        ensures
            r == cube_sub(self, other),
    {
        Cube(
            self.0.wrapping_sub(other.0),
            self.1.wrapping_sub(other.1),
            self.2.wrapping_sub(other.2),
        )
    }

    /// One 60-degree rotation about `pivot`.
    pub fn rotate(self, pivot: Self) -> (r: Self)
        ensures
            r == cube_rotate(self, pivot),
    {
        let d = self.wrapping_sub(pivot);
        pivot.wrapping_add(
            Cube(
                (0i32).wrapping_sub(d.1),
                (0i32).wrapping_sub(d.2),
                (0i32).wrapping_sub(d.0),
            ),
        )
    }

    /// `steps` successive 60-degree rotations about `pivot`.
    pub fn rotate_many(self, pivot: Self, steps: usize) -> (r: Self)
        ensures
            r == cube_rotate_many(self, pivot, steps as nat),
    {
        let mut d = self.wrapping_sub(pivot);
        let mut i: usize = 0;
        while i < steps
            invariant
                i <= steps,
                d == cube_turn_many(cube_sub(self, pivot), i as nat),
            decreases steps - i,
        {
            d = Cube((0i32).wrapping_sub(d.1), (0i32).wrapping_sub(d.2), (0i32).wrapping_sub(d.0));
            i = i + 1;
            proof {
                lemma_cube_turn_many_unfold_back(cube_sub(self, pivot), i as nat);
            }
        }
        d.wrapping_add(pivot)
    }
}

/// Peeling the last rotation off `cube_turn_many`.
proof fn lemma_cube_turn_many_unfold_back(c: Cube, n: nat)
    requires
        n > 0,
    ensures
        cube_turn_many(c, n) == cube_turn(cube_turn_many(c, (n - 1) as nat)),
    decreases n,
{
    assert(cube_turn_many(c, n) == cube_turn_many(cube_turn(c), (n - 1) as nat));
    if n == 1 {
        assert(cube_turn_many(cube_turn(c), 0) == cube_turn(c));
        assert(cube_turn_many(c, 0) == c);
    } else {
        lemma_cube_turn_many_unfold_back(cube_turn(c), (n - 1) as nat);
        assert(cube_turn_many(c, (n - 1) as nat) == cube_turn_many(cube_turn(c), (n - 2) as nat));
    }
}

} // verus!
