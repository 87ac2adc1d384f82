use vstd::prelude::*;

verus! {

/// A position on the integer grid, as `(x, y)`.
pub type Coordinate = (i32, i32);

/// The squared Euclidean distance between two positions of the plane.
///
/// Squaring keeps the distance an integer; since squaring is strictly
/// increasing on lengths, comparing squared distances orders pairs of points
/// exactly as comparing their distances would.
pub open spec fn dist_sq(a: (int, int), b: (int, int)) -> nat {
    ((a.0 - b.0) * (a.0 - b.0) + (a.1 - b.1) * (a.1 - b.1)) as nat
}

/// Whether a position of the plane lies on the part of the grid that a
/// [`Coordinate`] can name.
pub open spec fn on_grid(p: (int, int)) -> bool {
    i32::MIN <= p.0 <= i32::MAX && i32::MIN <= p.1 <= i32::MAX
}

/// The position that a coordinate names.
pub open spec fn position(c: Coordinate) -> (int, int) {
    (c.0 as int, c.1 as int)
}

/// The distance of a point from itself is zero, and distance does not depend
/// on the direction in which it is measured.
pub proof fn lemma_dist_sq_symmetric(a: (int, int), b: (int, int))
    ensures
        dist_sq(a, b) == dist_sq(b, a),
        dist_sq(a, a) == 0,
{
    assert((a.0 - b.0) * (a.0 - b.0) == (b.0 - a.0) * (b.0 - a.0)) by (nonlinear_arith);
    assert((a.1 - b.1) * (a.1 - b.1) == (b.1 - a.1) * (b.1 - a.1)) by (nonlinear_arith);
}

/// Squared distances between grid positions fit in 128 bits with room to
/// spare, and so does each of the two squares they are made of.
pub proof fn lemma_dist_sq_bound(a: (int, int), b: (int, int))
    requires
        on_grid(a),
        on_grid(b),
    ensures
        0 <= (a.0 - b.0) * (a.0 - b.0) <= 0x1_0000_0000_0000_0000,
        0 <= (a.1 - b.1) * (a.1 - b.1) <= 0x1_0000_0000_0000_0000,
        dist_sq(a, b) == (a.0 - b.0) * (a.0 - b.0) + (a.1 - b.1) * (a.1 - b.1),
        dist_sq(a, b) <= 0x2_0000_0000_0000_0000,
{
    let dx = a.0 - b.0;
    let dy = a.1 - b.1;
    assert(0 <= dx * dx <= 0x1_0000_0000_0000_0000) by (nonlinear_arith)
        requires
            -0x1_0000_0000 <= dx <= 0x1_0000_0000,
    ;
    assert(0 <= dy * dy <= 0x1_0000_0000_0000_0000) by (nonlinear_arith)
        requires
            -0x1_0000_0000 <= dy <= 0x1_0000_0000,
    ;
}

/// Computes the squared Euclidean distance between two coordinates.
pub fn squared_distance(a: Coordinate, b: Coordinate) -> (d: u128)
    ensures
        d == dist_sq(position(a), position(b)),
{
    proof {
        lemma_dist_sq_bound(position(a), position(b));
    }
    let dx: i128 = a.0 as i128 - b.0 as i128;
    let dy: i128 = a.1 as i128 - b.1 as i128;
    let sum: i128 = dx * dx + dy * dy;
    sum as u128
}

} // verus!
