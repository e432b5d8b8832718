use vstd::prelude::*;

verus! {

/// One of the six edges of a hexagonal cell, or its center.
///
/// The three edges on the right and at the bottom (`TR`, `BR`, `B`) carry
/// outputs, the three on the left and at the top (`BL`, `TL`, `T`) carry
/// inputs.
#[derive(Debug, Clone, Copy, PartialEq, Eq, Structural)]
pub enum CellDir {
    /// Top-Right edge (output 1)
    TR,
    /// Bottom-Right edge (output 2)
    BR,
    /// Bottom edge (output 3)
    B,
    /// Bottom-Left edge (input 3)
    BL,
    /// Top-Left edge (input 2)
    TL,
    /// Top edge (input 1)
    T,
    /// Center
    C,
}

/// The edges that carry an output of a cell.
pub open spec fn spec_is_output(dir: CellDir) -> bool {
    dir == CellDir::TR || dir == CellDir::BR || dir == CellDir::B
}

/// The grid offset `(dx, dy)` of the neighbour across `dir`, for a cell in
/// column `x`. Odd columns are shifted down by half a cell.
pub open spec fn spec_offs(dir: CellDir, x: int) -> (int, int) {
    let even = x % 2 == 0;
    match dir {
        CellDir::TR => (1, if even { -1 } else { 0 }),
        CellDir::BR => (1, if even { 0 } else { 1 }),
        CellDir::B => (0, 1),
        CellDir::BL => (-1, if even { 0 } else { 1 }),
        CellDir::TL => (-1, if even { -1 } else { 0 }),
        CellDir::T => (0, -1),
        CellDir::C => (0, 0),
    }
}

/// The edge of the neighbouring cell that touches `dir`.
pub open spec fn spec_opposite(dir: CellDir) -> CellDir {
    match dir {
        CellDir::TR => CellDir::BL,
        CellDir::BR => CellDir::TL,
        CellDir::B => CellDir::T,
        CellDir::BL => CellDir::TR,
        CellDir::TL => CellDir::BR,
        CellDir::T => CellDir::B,
        CellDir::C => CellDir::C,
    }
}

impl CellDir {
    /// Whether this edge carries an output.
    pub fn is_output(&self) -> (r: bool)
        ensures
            r == spec_is_output(*self),
    {
        match self {
            CellDir::TR | CellDir::BR | CellDir::B => true,
            _ => false,
        }
    }

    /// Whether this edge carries an input (the center carries neither
    /// inputs nor outputs, but is reported as an input edge).
    pub fn is_input(&self) -> (r: bool)
        ensures
            r == !spec_is_output(*self),
    {
        !self.is_output()
    }

    /// The offset to the neighbouring cell across this edge, for a cell in
    /// column `x`.
    pub fn to_offs(&self, x: usize) -> (r: (i32, i32))
        ensures
            r.0 == spec_offs(*self, x as int).0,
            r.1 == spec_offs(*self, x as int).1,
    {
        let even = x % 2 == 0;
        match self {
            CellDir::TR => (1, if even { -1 } else { 0 }),
            CellDir::BR => (1, if even { 0 } else { 1 }),
            CellDir::B => (0, 1),
            CellDir::BL => (-1, if even { 0 } else { 1 }),
            CellDir::TL => (-1, if even { -1 } else { 0 }),
            CellDir::T => (0, -1),
            CellDir::C => (0, 0),
        }
    }
}

/// Edges come in facing pairs: stepping across an edge and back across the
/// edge of the neighbour that touches it returns to the starting cell.
/// Each output edge faces an input edge of its neighbour.
pub proof fn lemma_opposite_edges_meet(dir: CellDir, x: int)
    ensures
        ({
            let o = spec_offs(dir, x);
            let back = spec_offs(spec_opposite(dir), x + o.0);
            o.0 + back.0 == 0 && o.1 + back.1 == 0
        }),
        spec_opposite(spec_opposite(dir)) == dir,
        dir != CellDir::C ==> (spec_is_output(dir) <==> !spec_is_output(spec_opposite(dir))),
{
}

/// The step across an edge depends only on whether the column is even or
/// odd: columns of the same parity have the same neighbourhood.
pub proof fn lemma_offs_by_parity(dir: CellDir, x: int)
    requires
        0 <= x,
    ensures
        spec_offs(dir, x) == spec_offs(dir, x % 2),
{
    assert((x % 2) % 2 == x % 2);
}

/// The shape of the hex grid: top and bottom neighbours share the column,
/// the right edges lead one column right and the left edges one column
/// left; on each side the lower neighbour is one row below the upper one,
/// left and right neighbours sit at the same heights, and even columns are
/// the raised ones (their upper side neighbours are one row up).
pub proof fn lemma_hex_shape(x: int)
    requires
        0 <= x,
    ensures
        spec_offs(CellDir::T, x) == (0int, -1int),
        spec_offs(CellDir::B, x) == (0int, 1int),
        spec_offs(CellDir::C, x) == (0int, 0int),
        spec_offs(CellDir::TR, x).0 == 1 && spec_offs(CellDir::BR, x).0 == 1,
        spec_offs(CellDir::TL, x).0 == -1 && spec_offs(CellDir::BL, x).0 == -1,
        spec_offs(CellDir::BR, x).1 == spec_offs(CellDir::TR, x).1 + 1,
        spec_offs(CellDir::BL, x).1 == spec_offs(CellDir::TL, x).1 + 1,
        spec_offs(CellDir::TL, x).1 == spec_offs(CellDir::TR, x).1,
        x % 2 == 0 ==> spec_offs(CellDir::TR, x).1 == -1,
        x % 2 == 1 ==> spec_offs(CellDir::TR, x).1 == 0,
{
}

} // verus!
