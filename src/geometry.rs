use vstd::prelude::*;

verus! {

/// Position units per picometre: positions are held in fixed point.
pub const UNITS_PER_PM: i32 = 1000;

/// Distance (in position units) beyond which a bond is dissolved, and
/// within which a new bond may form.
pub const BOND_DISTANCE: i64 = 30000;

/// A point of the plane in fixed-point units (`UNITS_PER_PM` per picometre).
#[derive(Clone, Copy, PartialEq, Eq, Debug, Structural)]
pub struct Pos {
    pub x: i32,
    pub y: i32,
}

/// Squared Euclidean distance between two positions.
pub open spec fn dist2(a: Pos, b: Pos) -> int {
    (a.x - b.x) * (a.x - b.x) + (a.y - b.y) * (a.y - b.y)
}

/// Whether two positions are farther apart than the bond distance.
pub open spec fn beyond_bond_distance(a: Pos, b: Pos) -> bool {
    dist2(a, b) > BOND_DISTANCE * BOND_DISTANCE
}

impl Pos {
    pub fn new(x: i32, y: i32) -> (r: Pos)
        ensures
            r.x == x,
            r.y == y,
    {
        Pos { x, y }
    }

    /// Squared distance to `other`.
    pub fn distance_squared(&self, other: &Pos) -> (r: i128)
        ensures
            r == dist2(*self, *other),
    {
        let dx: i128 = self.x as i128 - other.x as i128;
        let dy: i128 = self.y as i128 - other.y as i128;
        assert(0 <= dx * dx <= 0x1_0000_0000i128 * 0x1_0000_0000i128) by (nonlinear_arith)
            requires
                -0x1_0000_0000i128 <= dx <= 0x1_0000_0000i128,
        ;
        assert(0 <= dy * dy <= 0x1_0000_0000i128 * 0x1_0000_0000i128) by (nonlinear_arith)
            requires
                -0x1_0000_0000i128 <= dy <= 0x1_0000_0000i128,
        ;
        dx * dx + dy * dy
    }

    /// Whether `other` lies farther away than the bond distance.
    pub fn is_beyond_bond_distance(&self, other: &Pos) -> (r: bool)
        ensures
            r == beyond_bond_distance(*self, *other),
    {
        let limit: i128 = BOND_DISTANCE as i128 * BOND_DISTANCE as i128;
        self.distance_squared(other) > limit
    }
}

} // verus!
