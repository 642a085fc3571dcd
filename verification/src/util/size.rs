//! Sizes of 3D grids and the flattening of grid positions into array indices.

use crate::util::vector::{IVec3, UVec3};
use vstd::prelude::*;

verus! {

/// The size of a 3D grid along each axis.
#[derive(Clone, Copy, Debug, PartialEq, Eq, Structural)]
pub struct Size3 {
    pub x: usize,
    pub y: usize,
    pub z: usize,
}

impl Size3 {
    /// Number of cells in the grid.
    pub open spec fn product_spec(self) -> int {
        self.x * self.y * self.z
    }

    /// The grid is small enough that its cells can be counted, and its sides can be
    /// used as signed coordinates.
    pub open spec fn wf(self) -> bool {
        &&& self.product_spec() <= usize::MAX
        &&& self.x <= i32::MAX
        &&& self.y <= i32::MAX
        &&& self.z <= i32::MAX
    }

    /// Index of the cell at `(x, y, z)`: by `z`, then `y`, then `x`.
    pub open spec fn flatten_spec(self, x: int, y: int, z: int) -> int {
        x + self.x * (y + self.y * z)
    }

    /// A grid with the given sides.
    pub fn new(x: usize, y: usize, z: usize) -> (r: Self)
        ensures
            r == (Size3 { x, y, z }),
    {
        Size3 { x, y, z }
    }

    /// A grid with all sides equal to `n`.
    pub fn splat(n: usize) -> (r: Self)
        ensures
            r == (Size3 { x: n, y: n, z: n }),
    {
        Size3 { x: n, y: n, z: n }
    }

    /// Number of cells in the grid.
    pub fn product(&self) -> (r: usize)
        requires
            self.wf(),
        ensures
            r == self.product_spec(),
    {
        if self.z == 0 {
            assert(self.x * self.y * self.z == 0) by (nonlinear_arith)
                requires
                    self.z == 0,
            ;
            return 0;
        }
        assert(self.x * self.y <= self.x * self.y * self.z) by (nonlinear_arith)
            requires
                self.z >= 1,
        ;
        self.x * self.y * self.z
    }

    /// True if `p` is a cell of the grid.
    pub fn contains_ivec3(&self, p: IVec3) -> (r: bool)
        ensures
            r == (0 <= p.x < self.x && 0 <= p.y < self.y && 0 <= p.z < self.z),
    {
        0 <= p.x && (p.x as usize) < self.x && 0 <= p.y && (p.y as usize) < self.y && 0 <= p.z
            && (p.z as usize) < self.z
    }

    /// Index of the cell `p` in an array of the grid's cells.
    pub fn flatten(&self, p: UVec3) -> (r: usize)
        requires
            self.wf(),
            p.x < self.x,
            p.y < self.y,
            p.z < self.z,
        ensures
            r == self.flatten_spec(p.x as int, p.y as int, p.z as int),
            r < self.product_spec(),
    {
        let x = p.x as usize;
        let y = p.y as usize;
        let z = p.z as usize;
        proof {
            lemma_flatten_bound(self.x as int, self.y as int, self.z as int, x as int, y as int, z as int);
        }
        x + self.x * (y + self.y * z)
    }

    /// The sides as a signed vector.
    pub fn as_ivec3(&self) -> (r: IVec3)
        requires
            self.wf(),
        ensures
            r.x == self.x && r.y == self.y && r.z == self.z,
    {
        IVec3 { x: self.x as i32, y: self.y as i32, z: self.z as i32 }
    }
}

/// The flattened index of a cell lies within the grid's cell count.
pub proof fn lemma_flatten_bound(sx: int, sy: int, sz: int, x: int, y: int, z: int)
    requires
        0 <= x < sx,
        0 <= y < sy,
        0 <= z < sz,
    ensures
        0 <= y + sy * z < sy * sz,
        0 <= x + sx * (y + sy * z) < sx * sy * sz,
        sx * (y + sy * z) <= sx * sy * sz,
        sy * z < sy * sz,
        sy * sz <= sx * sy * sz,
{
    assert(0 <= y + sy * z < sy * sz) by (nonlinear_arith)
        requires
            0 <= y < sy,
            0 <= z < sz,
    ;
    assert(0 <= x + sx * (y + sy * z) < sx * (sy * sz)) by (nonlinear_arith)
        requires
            0 <= x < sx,
            0 <= y + sy * z < sy * sz,
    ;
    assert(sx * (sy * sz) == sx * sy * sz) by (nonlinear_arith);
    assert(sy * sz <= sx * (sy * sz)) by (nonlinear_arith)
        requires
            1 <= sx,
            0 <= sy * sz,
    ;
    assert(sx * (y + sy * z) <= sx * (sy * sz)) by (nonlinear_arith)
        requires
            0 <= x < sx,
            0 <= y + sy * z < sy * sz,
    ;
}

/// Distinct cells have distinct indices, and every index in range belongs to a cell.
pub proof fn lemma_flatten_injective(s: Size3, x1: int, y1: int, z1: int, x2: int, y2: int, z2: int)
    requires
        0 <= x1 < s.x,
        0 <= y1 < s.y,
        0 <= z1 < s.z,
        0 <= x2 < s.x,
        0 <= y2 < s.y,
        0 <= z2 < s.z,
        s.flatten_spec(x1, y1, z1) == s.flatten_spec(x2, y2, z2),
    ensures
        x1 == x2 && y1 == y2 && z1 == z2,
{
    let a1 = y1 + s.y * z1;
    let a2 = y2 + s.y * z2;
    let n = x1 + s.x * a1;
    assert(s.x * a1 == a1 * s.x && s.x * a2 == a2 * s.x && s.y * z1 == z1 * s.y && s.y * z2 == z2 * s.y)
        by (nonlinear_arith);
    vstd::arithmetic::div_mod::lemma_fundamental_div_mod_converse(n, s.x as int, a1, x1);
    vstd::arithmetic::div_mod::lemma_fundamental_div_mod_converse(n, s.x as int, a2, x2);
    vstd::arithmetic::div_mod::lemma_fundamental_div_mod_converse(a1, s.y as int, z1, y1);
    vstd::arithmetic::div_mod::lemma_fundamental_div_mod_converse(a2, s.y as int, z2, y2);
}

} // verus!
