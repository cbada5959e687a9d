use vstd::prelude::*;

use crate::cube::{axial_of_cube, cube_of_axial, cube_rotate, cube_rotate_many, Cube};

verus! {

/// One hexagonal cell in axial coordinates `(q, r)`.
///
/// Arithmetic on coordinates wraps on overflow by design: coordinate
/// ranges are bounded in practice, and wrapping keeps every operation
/// total.
#[derive(Clone, Copy, Debug, PartialEq, Eq, Structural, Hash)]
pub struct Axial(pub i32, pub i32);

/// Component-wise wrapping sum of two axial coordinates.
pub open spec fn axial_add(a: Axial, b: Axial) -> Axial {
    Axial(a.0.wrapping_add(b.0), a.1.wrapping_add(b.1))
}

/// Component-wise wrapping difference of two axial coordinates.
pub open spec fn axial_sub(a: Axial, b: Axial) -> Axial {
    Axial(a.0.wrapping_sub(b.0), a.1.wrapping_sub(b.1))
}

/// Component-wise minimum.
pub open spec fn axial_min(a: Axial, b: Axial) -> Axial {
    Axial(if a.0 < b.0 { a.0 } else { b.0 }, if a.1 < b.1 { a.1 } else { b.1 })
}

/// Component-wise maximum.
pub open spec fn axial_max(a: Axial, b: Axial) -> Axial {
    Axial(if a.0 > b.0 { a.0 } else { b.0 }, if a.1 > b.1 { a.1 } else { b.1 })
}

/// Reflection across one axis of the hexagonal grid.
pub open spec fn axial_flip(a: Axial) -> Axial {
    Axial(a.0.wrapping_add(a.1), (0i32).wrapping_sub(a.1))
}

/// The two's-complement bit pattern of `x` as a nonnegative integer.
pub open spec fn unsigned_repr(x: i32) -> int {
    (0u32).wrapping_add_signed(x) as int
}

/// A bijective packing of a coordinate into a single 64-bit integer,
/// `r` in the high half and `q` in the low half. It preserves equality,
/// and sorting by it gives the deterministic total order used by the
/// canonical forms.
pub open spec fn key_spec(a: Axial) -> int {
    unsigned_repr(a.1) * 0x1_0000_0000 + unsigned_repr(a.0)
}

/// The total order on cells induced by the packed key.
pub open spec fn key_le(a: Axial, b: Axial) -> bool {
    key_spec(a) <= key_spec(b)
}

/// `key_le` as a function value, for use with sequence sorting.
pub open spec fn key_le_fn() -> spec_fn(Axial, Axial) -> bool {
    |a: Axial, b: Axial| key_le(a, b)
}

/// Two cells with the same packed key are the same cell.
pub proof fn lemma_key_injective(a: Axial, b: Axial)
    requires
        key_spec(a) == key_spec(b),
    ensures
        a == b,
{
    assert(0 <= unsigned_repr(a.0) < 0x1_0000_0000);
    assert(0 <= unsigned_repr(b.0) < 0x1_0000_0000);
    assert(unsigned_repr(a.0) == unsigned_repr(b.0) && unsigned_repr(a.1) == unsigned_repr(b.1))
        by (nonlinear_arith)
        requires
            unsigned_repr(a.1) * 0x1_0000_0000 + unsigned_repr(a.0) == unsigned_repr(b.1)
                * 0x1_0000_0000 + unsigned_repr(b.0),
            0 <= unsigned_repr(a.0) < 0x1_0000_0000,
            0 <= unsigned_repr(b.0) < 0x1_0000_0000,
    ;
}

/// The packed-key order is a total order on cells.
pub proof fn lemma_key_le_total_ordering()
    ensures
        vstd::relations::total_ordering(key_le_fn()),
{
    let leq = key_le_fn();
    assert forall|a: Axial, b: Axial| #[trigger] leq(a, b) && #[trigger] leq(b, a) implies a == b by {
        lemma_key_injective(a, b);
    }
}

/// One 60-degree rotation about `pivot`, through the cube encoding.
pub open spec fn axial_rotate(a: Axial, pivot: Axial) -> Axial {
    axial_of_cube(cube_rotate(cube_of_axial(a), cube_of_axial(pivot)))
}

/// `n` successive 60-degree rotations about `pivot`.
pub open spec fn axial_rotate_many(a: Axial, pivot: Axial, n: nat) -> Axial {
    axial_of_cube(cube_rotate_many(cube_of_axial(a), cube_of_axial(pivot), n))
}

impl Axial {
    /// The coordinate with both components equal to `i`.
    pub fn splat(i: i32) -> (r: Self)
        ensures
            r == Axial(i, i),
    {
        Axial(i, i)
    }

    /// Component-wise wrapping sum.
    pub fn wrapping_add(self, other: Self) -> (r: Self)
        ensures
            r == axial_add(self, other),
    {
        Axial(self.0.wrapping_add(other.0), self.1.wrapping_add(other.1))
    }

    /// Component-wise wrapping difference.
    pub fn wrapping_sub(self, other: Self) -> (r: Self)
        ensures
            r == axial_sub(self, other),
    {
        Axial(self.0.wrapping_sub(other.0), self.1.wrapping_sub(other.1))
    }

    /// Reflection across one axis of the hexagonal grid.
    pub fn flip(self) -> (r: Self)
        ensures
            r == axial_flip(self),
    {
        Axial(self.0.wrapping_add(self.1), (0i32).wrapping_sub(self.1))
    }

    /// Component-wise minimum.
    pub fn min(self, other: Self) -> (r: Self)
        ensures
            r == axial_min(self, other),
    {
        Axial(
            if self.0 < other.0 {
                self.0
            } else {
                other.0
            },
            if self.1 < other.1 {
                self.1
            } else {
                other.1
            },
        )
    }

    /// Component-wise maximum.
    pub fn max(self, other: Self) -> (r: Self)
        ensures
            r == axial_max(self, other),
    {
        Axial(
            if self.0 > other.0 {
                self.0
            } else {
                other.0
            },
            if self.1 > other.1 {
                self.1
            } else {
                other.1
            },
        )
    }

    /// One 60-degree rotation about `pivot`, through the cube encoding.
    pub fn rotate(self, pivot: Self) -> (r: Self)
        ensures
            r == axial_rotate(self, pivot),
    {
        Cube::from_axial(self).rotate(Cube::from_axial(pivot)).to_axial()
    }

    /// `steps` successive 60-degree rotations about `pivot`.
    pub fn rotate_many(self, pivot: Self, steps: usize) -> (r: Self)
        ensures
            r == axial_rotate_many(self, pivot, steps as nat),
    {
        Cube::from_axial(self).rotate_many(Cube::from_axial(pivot), steps).to_axial()
    }

    /// The packed 64-bit key: `r`'s bit pattern in the high 32 bits,
    /// `q`'s in the low 32 bits.
    pub fn key(self) -> (r: u64)
        ensures
            r == key_spec(self),
    {
        let lo: u32 = (0u32).wrapping_add_signed(self.0);
        let hi: u32 = (0u32).wrapping_add_signed(self.1);
        (hi as u64) * 0x1_0000_0000u64 + (lo as u64)
    }
}

/// An axis-aligned bounding box over axial coordinates, as the
/// component-wise minimum and maximum of a cell set.
#[derive(Clone, Copy, Debug, PartialEq, Eq, Structural)]
pub struct AxialAabb {
    pub min: Axial,
    pub max: Axial,
}

impl AxialAabb {
    /// The component-wise extent of the box (wrapping difference).
    pub fn size(self) -> (r: Axial)
        ensures
            r == axial_sub(self.max, self.min),
    {
        Axial(self.max.0.wrapping_sub(self.min.0), self.max.1.wrapping_sub(self.min.1))
    }
}

} // verus!
