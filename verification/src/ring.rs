//! Geometry of square rings: the cells at a fixed Chebyshev distance from a
//! centre, enumerated column by column.

use vstd::prelude::*;

verus! {

/// Absolute value of an integer.
pub open spec fn abs(a: int) -> int {
    if a < 0 { -a } else { a }
}

/// Chebyshev distance between two cells: the larger of the two axis distances.
pub open spec fn chebyshev(ax: int, ay: int, bx: int, by: int) -> int {
    if abs(ax - bx) >= abs(ay - by) { abs(ax - bx) } else { abs(ay - by) }
}

/// Number of cells on the ring of radius `r`: one for the centre itself,
/// `8 * r` for a proper ring, none for a negative radius.
pub open spec fn ring_len(r: int) -> nat {
    if r < 0 { 0 } else if r == 0 { 1 } else { (8 * r) as nat }
}

/// Offset from the centre of the `k`-th cell of the ring of radius `r`.
/// Cells are listed by increasing x offset, and by increasing y offset within
/// one column: the full left column, two cells for each inner column, the
/// full right column.
pub open spec fn ring_offset(r: int, k: int) -> (int, int) {
    if k < 2 * r + 1 {
        (-r, k - r)
    } else if k < 6 * r - 1 {
        let m = k - (2 * r + 1);
        (m / 2 - r + 1, if m % 2 == 0 { -r } else { r })
    } else {
        (r, k - (6 * r - 1) - r)
    }
}

/// Position in the ring of radius `r` of the cell at offset `(i, j)`.
pub open spec fn ring_position(r: int, i: int, j: int) -> int {
    if i == -r {
        j + r
    } else if i < r {
        2 * r + 1 + 2 * (i + r - 1) + if j == -r { 0int } else { 1int }
    } else {
        6 * r - 1 + j + r
    }
}

/// Number of ring cells that come before offset `(i, j)` when all offsets of
/// the enclosing square are walked column by column.
pub open spec fn ring_cells_before(r: int, i: int, j: int) -> int {
    if i == -r {
        j + r
    } else if i < r {
        2 * r + 1 + 2 * (i + r - 1) + if j <= -r { 0int } else if j <= r { 1int } else { 2int }
    } else if i == r {
        6 * r - 1 + j + r
    } else {
        ring_len(r) as int
    }
}

/// Whether offset `(i, j)` lies on the ring of radius `r`.
pub open spec fn on_ring(r: int, i: int, j: int) -> bool {
    -r <= i <= r && -r <= j <= r && (i == -r || i == r || j == -r || j == r)
}

/// Every listed offset lies on the ring, and its position is its index.
pub proof fn lemma_ring_offset_on_ring(r: int, k: int)
    requires
        r >= 0,
        0 <= k < ring_len(r),
    ensures
        on_ring(r, ring_offset(r, k).0, ring_offset(r, k).1),
        ring_position(r, ring_offset(r, k).0, ring_offset(r, k).1) == k,
        chebyshev(ring_offset(r, k).0, ring_offset(r, k).1, 0, 0) == r,
{
}

/// Every offset on the ring is listed, at its position.
pub proof fn lemma_ring_position_offset(r: int, i: int, j: int)
    requires
        r >= 0,
        on_ring(r, i, j),
    ensures
        0 <= ring_position(r, i, j) < ring_len(r),
        ring_offset(r, ring_position(r, i, j)) == (i, j),
        ring_cells_before(r, i, j) == ring_position(r, i, j),
{
}

/// An offset lies on the ring exactly when its Chebyshev norm is the radius.
pub proof fn lemma_on_ring_chebyshev(r: int, i: int, j: int)
    requires
        r >= 0,
    ensures
        on_ring(r, i, j) <==> chebyshev(i, j, 0, 0) == r,
{
}

} // verus!
