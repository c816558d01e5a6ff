//! The 4x4 grid, stored row-major as sixteen cells, and the rearrangements
//! that reduce every direction to a left shift.

use vstd::prelude::*;
use crate::row::total;

verus! {

/// Number of rows, and of cells in each row.
pub const SIZE: usize = 4;

/// Number of cells of a grid.
pub const CELLS: usize = 16;

/// Row `r` of the grid `v`.
pub open spec fn row_of(v: Seq<usize>, r: int) -> Seq<usize> {
    v.subrange(4 * r, 4 * r + 4)
}

/// The grid `v` with rows and columns exchanged: cell (r, c) of the result
/// is cell (c, r) of `v`.
pub open spec fn transposed(v: Seq<usize>) -> Seq<usize> {
    Seq::new(16, |k: int| v[4 * (k % 4) + k / 4])
}

/// The grid `v` with each row reversed.
pub open spec fn mirrored(v: Seq<usize>) -> Seq<usize> {
    Seq::new(16, |k: int| v[4 * (k / 4) + 3 - k % 4])
}

/// Transposing a grid twice gives it back.
pub proof fn lemma_transpose_twice(v: Seq<usize>)
    requires
        v.len() == 16,
    ensures
        transposed(transposed(v)) == v,
{
    assert forall|k: int| 0 <= k < 16 implies #[trigger] transposed(transposed(v))[k] == v[k] by {
        let j = 4 * (k % 4) + k / 4;
        assert(0 <= j < 16 && j % 4 == k / 4 && j / 4 == k % 4 && 4 * (j % 4) + j / 4 == k)
            by (nonlinear_arith)
            requires j == 4 * (k % 4) + k / 4, 0 <= k < 16;
    }
    assert(transposed(transposed(v)) =~= v);
}

/// Transposing keeps the sum of the cells.
pub proof fn lemma_total_transposed(v: Seq<usize>)
    requires
        v.len() == 16,
    ensures
        total(transposed(v)) == total(v),
{
    lemma_total16(v);
    lemma_total16(transposed(v));
}

/// The sum of a grid, cell by cell.
pub proof fn lemma_total16(v: Seq<usize>)
    requires
        v.len() == 16,
    ensures
        total(v) == v[0] + v[1] + v[2] + v[3] + v[4] + v[5] + v[6] + v[7] + v[8] + v[9]
            + v[10] + v[11] + v[12] + v[13] + v[14] + v[15],
{
    reveal_with_fuel(total, 17);
}

/// Returns the grid `orig` with rows and columns exchanged.
pub fn transpose(orig: &[usize]) -> (r: Vec<usize>)
    requires
        orig@.len() == 16,
    ensures
        r@ == transposed(orig@),
{
    let mut flipped: Vec<usize> = Vec::new();
    let mut col: usize = 0;
    while col < SIZE
        invariant
            orig@.len() == 16,
            col <= 4,
            flipped@.len() == 4 * col,
            forall|k: int| 0 <= k < 4 * col ==> flipped@[k] == orig@[4 * (k % 4) + k / 4],
        decreases 4 - col,
    {
        let mut ele: usize = col;
        let mut r: usize = 0;
        while ele < orig.len()
            invariant
                orig@.len() == 16,
                col < 4,
                r <= 4,
                ele == col + 4 * r,
                flipped@.len() == 4 * col + r,
                forall|k: int| 0 <= k < 4 * col + r ==> flipped@[k] == orig@[4 * (k % 4) + k / 4],
            decreases 4 - r,
        {
            assert((4 * col + r) % 4 == r && (4 * col + r) / 4 == col) by (nonlinear_arith)
                requires r < 4, col < 4;
            flipped.push(orig[ele]);
            ele = ele + SIZE;
            r = r + 1;
        }
        col = col + 1;
    }
    assert(flipped@ =~= transposed(orig@));
    flipped
}

} // verus!
