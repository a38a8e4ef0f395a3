//! The brush store of the world and its acceleration grid.
//!
//! The grid is a 3D array of one-metre cells. Each cell holds a u32 that
//! packs the offset of the cell's brush list in `grid_indices` and the number
//! of brushes in that list: `(offset << 8) | count`.
use vstd::prelude::*;
use vstd::arithmetic::div_mod::{
    lemma_fundamental_div_mod,
    lemma_fundamental_div_mod_converse,
};
use std::collections::HashMap;
use crate::removal::law_remove_keeps_grid;
use crate::geometry::{Brush, Point, Vec3, Size3, Quat, KIND_BOX, OP_ADD, QUAT_ONE, Triple, OP_SUB, UNITS_PER_METER, aabb_lo, aabb_hi, coord, min_int, max_int, point_view, point_bounded, lemma_corners_min_le_max, floor_div, ceil_div};

verus! {

/// Maximum number of brush slots in the world.
pub const MAX_BRUSHES: usize = 65534;

/// Grid cell slot empty; also the id returned when the world is full.
pub const SLOT_EMPTY: u16 = 65535;

/// Most brushes listed in one grid cell.
pub const MAX_CELL_BRUSHES: u32 = 255;

/// Largest offset into the index buffer that a cell can hold (24 bits).
pub const MAX_CELL_OFFSET: usize = 16777215;

/// Why the grid could not be built.
#[derive(Clone, Copy, Debug, PartialEq, Eq, Structural)]
pub enum GridError {
    /// The number of cells does not fit in a u32.
    TooLarge,
    /// A cell's offset into the index buffer does not fit in 24 bits.
    OffsetOverflow,
}

// ---------------------------------------------------------------------
// Cells of a grid
// ---------------------------------------------------------------------

/// X coordinate of cell `c` in a grid of extent `ext` (cells are laid out y, then z, then x).
pub open spec fn cell_x(c: int, ext: Triple) -> int {
    c % ext.0
}

pub open spec fn cell_z(c: int, ext: Triple) -> int {
    (c / ext.0) % ext.2
}

pub open spec fn cell_y(c: int, ext: Triple) -> int {
    (c / ext.0) / ext.2
}

/// Index of the cell at (x, y, z).
pub open spec fn cell_index(x: int, y: int, z: int, ext: Triple) -> int {
    (y * ext.2 + z) * ext.0 + x
}

pub open spec fn cell_total(ext: Triple) -> int {
    ext.0 * ext.1 * ext.2
}

/// Cell `c` lies in the box `lo..=hi`.
pub open spec fn in_box(c: int, ext: Triple, lo: Triple, hi: Triple) -> bool {
    &&& lo.0 <= cell_x(c, ext) <= hi.0
    &&& lo.1 <= cell_y(c, ext) <= hi.1
    &&& lo.2 <= cell_z(c, ext) <= hi.2
}

/// The index of an in-range (x, y, z) is a cell whose coordinates are (x, y, z).
pub proof fn lemma_cell_index(x: int, y: int, z: int, ext: Triple)
    requires
        0 <= x < ext.0,
        0 <= y < ext.1,
        0 <= z < ext.2,
    ensures
        0 <= cell_index(x, y, z, ext) < cell_total(ext),
        cell_x(cell_index(x, y, z, ext), ext) == x,
        cell_y(cell_index(x, y, z, ext), ext) == y,
        cell_z(cell_index(x, y, z, ext), ext) == z,
{
    let c = cell_index(x, y, z, ext);
    let r = y * ext.2 + z;
    assert(0 <= r < ext.1 * ext.2) by (nonlinear_arith)
        requires
            0 <= z < ext.2,
            0 <= y < ext.1,
            r == y * ext.2 + z,
    ;
    assert(0 <= c < cell_total(ext)) by (nonlinear_arith)
        requires
            0 <= r < ext.1 * ext.2,
            0 <= x < ext.0,
            c == r * ext.0 + x,
            cell_total(ext) == ext.0 * ext.1 * ext.2,
    ;
    lemma_fundamental_div_mod_converse(c, ext.0, r, x);
    lemma_fundamental_div_mod_converse(r, ext.2, y, z);
}

/// Every cell index is the index of its own coordinates.
pub proof fn lemma_cell_coords(c: int, ext: Triple)
    requires
        0 <= c < cell_total(ext),
        ext.0 > 0,
        ext.1 > 0,
        ext.2 > 0,
    ensures
        0 <= cell_x(c, ext) < ext.0,
        0 <= cell_y(c, ext) < ext.1,
        0 <= cell_z(c, ext) < ext.2,
        c == cell_index(cell_x(c, ext), cell_y(c, ext), cell_z(c, ext), ext),
{
    lemma_fundamental_div_mod(c, ext.0);
    let r = c / ext.0;
    lemma_fundamental_div_mod(r, ext.2);
    assert(0 <= r < ext.1 * ext.2) by (nonlinear_arith)
        requires
            c == ext.0 * r + c % ext.0,
            0 <= c % ext.0 < ext.0,
            0 <= c < ext.0 * ext.1 * ext.2,
            ext.0 > 0,
    ;
    assert(0 <= r / ext.2 < ext.1) by (nonlinear_arith)
        requires
            r == ext.2 * (r / ext.2) + r % ext.2,
            0 <= r % ext.2 < ext.2,
            0 <= r < ext.1 * ext.2,
            ext.2 > 0,
    ;
    assert(c == ((r / ext.2) * ext.2 + r % ext.2) * ext.0 + c % ext.0) by (nonlinear_arith)
        requires
            c == ext.0 * r + c % ext.0,
            r == ext.2 * (r / ext.2) + r % ext.2,
    ;
}

/// Two cells with the same coordinates are the same cell.
pub proof fn lemma_cell_unique(c1: int, c2: int, ext: Triple)
    requires
        0 <= c1 < cell_total(ext),
        0 <= c2 < cell_total(ext),
        ext.0 > 0,
        ext.1 > 0,
        ext.2 > 0,
        cell_x(c1, ext) == cell_x(c2, ext),
        cell_y(c1, ext) == cell_y(c2, ext),
        cell_z(c1, ext) == cell_z(c2, ext),
    ensures
        c1 == c2,
{
    lemma_cell_coords(c1, ext);
    lemma_cell_coords(c2, ext);
}

// ---------------------------------------------------------------------
// One brush's effect on the cell counts and on the index buffer
// ---------------------------------------------------------------------

/// New count of a cell when a brush is counted: a subtracting brush only
/// counts where something is already present, and a cell holds at most 255.
pub open spec fn count_step(n: int, covered: bool, is_sub: bool) -> int {
    if covered && (!is_sub || n > 0) && n < MAX_CELL_BRUSHES {
        n + 1
    } else {
        n
    }
}

/// New fill level of a cell when a brush is listed, with room for `cap` brushes.
pub open spec fn fill_step(m: int, covered: bool, is_sub: bool, cap: int) -> int {
    if covered && (!is_sub || m > 0) && m < cap {
        m + 1
    } else {
        m
    }
}

pub open spec fn triple_u32(a: [u32; 3]) -> Triple {
    (a[0] as int, a[1] as int, a[2] as int)
}

/// The loop position (x, y, z) has passed cell `c` (order: y, then z, then x).
pub open spec fn visited(c: int, ext: Triple, x: int, y: int, z: int) -> bool {
    ||| cell_y(c, ext) < y
    ||| (cell_y(c, ext) == y && cell_z(c, ext) < z)
    ||| (cell_y(c, ext) == y && cell_z(c, ext) == z && cell_x(c, ext) < x)
}

pub proof fn lemma_u32_low_byte(n: u32)
    requires
        n <= 0xFF,
    ensures
        n & 0xFF == n,
{
    assert(n <= 0xFF ==> n & 0xFF == n) by (bit_vector);
}

/// Count brush `is_sub` over the cells `lo..=hi`.
fn count_brush(grid: &mut Vec<u32>, size: [u32; 3], lo: [u32; 3], hi: [u32; 3], is_sub: bool)
    requires
        old(grid)@.len() == cell_total(triple_u32(size)),
        cell_total(triple_u32(size)) <= u32::MAX,
        lo[0] <= hi[0] < size[0],
        lo[1] <= hi[1] < size[1],
        lo[2] <= hi[2] < size[2],
        forall|c: int| 0 <= c < old(grid)@.len() ==> old(grid)@[c] <= MAX_CELL_BRUSHES,
    ensures
        final(grid)@.len() == old(grid)@.len(),
        forall|c: int|
            0 <= c < old(grid)@.len() ==> #[trigger] final(grid)@[c] as int == count_step(
                old(grid)@[c] as int,
                in_box(c, triple_u32(size), triple_u32(lo), triple_u32(hi)),
                is_sub,
            ),
{
    let ghost ext = triple_u32(size);
    let ghost g0 = old(grid)@;
    let ghost blo = triple_u32(lo);
    let ghost bhi = triple_u32(hi);
    let sx = size[0] as usize;
    let sz = size[2] as usize;
    let mut y = lo[1];
    while y <= hi[1]
        invariant
            lo[1] <= y <= hi[1] + 1,
            hi[1] < size[1],
            lo[0] <= hi[0] < size[0],
            lo[2] <= hi[2] < size[2],
            ext == triple_u32(size),
            blo == triple_u32(lo),
            bhi == triple_u32(hi),
            sx == size[0],
            sz == size[2],
            grid@.len() == g0.len(),
            g0.len() == cell_total(ext),
            cell_total(ext) <= u32::MAX,
            forall|c: int| 0 <= c < g0.len() ==> g0[c] <= MAX_CELL_BRUSHES,
            forall|c: int|
                0 <= c < g0.len() ==> #[trigger] grid@[c] as int == if in_box(c, ext, blo, bhi)
                    && visited(c, ext, lo[0] as int, y as int, lo[2] as int) {
                    count_step(g0[c] as int, true, is_sub)
                } else {
                    g0[c] as int
                },
        decreases hi[1] + 1 - y,
    {
        let mut z = lo[2];
        while z <= hi[2]
            invariant
                lo[1] <= y <= hi[1],
                lo[2] <= z <= hi[2] + 1,
                hi[1] < size[1],
                lo[0] <= hi[0] < size[0],
                hi[2] < size[2],
                ext == triple_u32(size),
                blo == triple_u32(lo),
                bhi == triple_u32(hi),
                sx == size[0],
                sz == size[2],
                grid@.len() == g0.len(),
                g0.len() == cell_total(ext),
                cell_total(ext) <= u32::MAX,
                forall|c: int| 0 <= c < g0.len() ==> g0[c] <= MAX_CELL_BRUSHES,
                forall|c: int|
                    0 <= c < g0.len() ==> #[trigger] grid@[c] as int == if in_box(c, ext, blo, bhi)
                        && visited(c, ext, lo[0] as int, y as int, z as int) {
                        count_step(g0[c] as int, true, is_sub)
                    } else {
                        g0[c] as int
                    },
            decreases hi[2] + 1 - z,
        {
            let mut x = lo[0];
            while x <= hi[0]
                invariant
                    lo[1] <= y <= hi[1],
                    lo[2] <= z <= hi[2],
                    lo[0] <= x <= hi[0] + 1,
                    hi[1] < size[1],
                    hi[0] < size[0],
                    hi[2] < size[2],
                    ext == triple_u32(size),
                    blo == triple_u32(lo),
                    bhi == triple_u32(hi),
                    sx == size[0],
                    sz == size[2],
                    grid@.len() == g0.len(),
                    g0.len() == cell_total(ext),
                    cell_total(ext) <= u32::MAX,
                    forall|c: int| 0 <= c < g0.len() ==> g0[c] <= MAX_CELL_BRUSHES,
                    forall|c: int|
                        0 <= c < g0.len() ==> #[trigger] grid@[c] as int == if in_box(
                            c,
                            ext,
                            blo,
                            bhi,
                        ) && visited(c, ext, x as int, y as int, z as int) {
                            count_step(g0[c] as int, true, is_sub)
                        } else {
                            g0[c] as int
                        },
                decreases hi[0] + 1 - x,
            {
                proof {
                    lemma_cell_index(x as int, y as int, z as int, ext);
                }
                let ghost ci = cell_index(x as int, y as int, z as int, ext);
                assert(y * ext.2 <= y * ext.2 + z <= (y * ext.2 + z) * ext.0 <= ci) by (nonlinear_arith)
                    requires
                        ci == (y * ext.2 + z) * ext.0 + x,
                        ext.0 >= 1,
                        z >= 0,
                        x >= 0,
                        y >= 0,
                        ext.2 >= 0,
                ;
                let c = (y as usize * sz + z as usize) * sx + x as usize;
                assert(c == ci) by (nonlinear_arith)
                    requires
                        c == (y * sz + z) * sx + x,
                        ci == (y * ext.2 + z) * ext.0 + x,
                        sz == ext.2,
                        sx == ext.0,
                ;
                let count = grid[c] & 0xFF;
                proof {
                    lemma_u32_low_byte(grid@[c as int]);
                }
                if !is_sub || count > 0 {
                    if count < 255 {
                        let v = grid[c] + 1;
                        grid.set(c, v);
                    }
                }
                proof {
                    assert forall|c2: int| 0 <= c2 < g0.len() implies #[trigger] grid@[c2] as int
                        == if in_box(c2, ext, blo, bhi) && visited(
                        c2,
                        ext,
                        x + 1,
                        y as int,
                        z as int,
                    ) {
                        count_step(g0[c2] as int, true, is_sub)
                    } else {
                        g0[c2] as int
                    } by {
                        if c2 != ci {
                            if cell_x(c2, ext) == x && cell_y(c2, ext) == y && cell_z(c2, ext)
                                == z {
                                lemma_cell_unique(c2, ci, ext);
                            }
                        }
                    }
                }
                x = x + 1;
            }
            z = z + 1;
        }
        y = y + 1;
    }
    proof {
        assert forall|c: int| 0 <= c < g0.len() implies #[trigger] grid@[c] as int == count_step(
            g0[c] as int,
            in_box(c, ext, blo, bhi),
            is_sub,
        ) by {
            lemma_cell_coords(c, ext);
        }
    }
}


/// Number of brushes a packed cell holds.
pub open spec fn cell_cap(cell: u32) -> int {
    (cell & 0xFF) as int
}

/// Offset of a packed cell's brush list in the index buffer.
pub open spec fn cell_offset(cell: u32) -> int {
    (cell >> 8) as int
}

/// Listing a brush in a cell that is already filled to `m` adds an entry.
pub open spec fn fills(m: int, covered: bool, is_sub: bool, cap: int) -> bool {
    covered && (!is_sub || m > 0) && m < cap
}

/// List brush `id` in the cells `lo..=hi`, after the entries already there.
fn fill_brush(
    cur: &mut Vec<u32>,
    indices: &mut Vec<u16>,
    grid: &Vec<u32>,
    size: [u32; 3],
    lo: [u32; 3],
    hi: [u32; 3],
    is_sub: bool,
    id: u16,
)
    requires
        old(cur)@.len() == cell_total(triple_u32(size)),
        grid@.len() == cell_total(triple_u32(size)),
        cell_total(triple_u32(size)) <= u32::MAX,
        lo[0] <= hi[0] < size[0],
        lo[1] <= hi[1] < size[1],
        lo[2] <= hi[2] < size[2],
        forall|c: int| 0 <= c < grid@.len() ==> old(cur)@[c] <= cell_cap(grid@[c]),
        forall|c: int|
            0 <= c < grid@.len() ==> cell_offset(grid@[c]) + cell_cap(grid@[c]) <= old(
                indices,
            )@.len(),
    ensures
        final(cur)@.len() == old(cur)@.len(),
        final(indices)@.len() == old(indices)@.len(),
        forall|c: int|
            0 <= c < grid@.len() ==> #[trigger] final(cur)@[c] as int == fill_step(
                old(cur)@[c] as int,
                in_box(c, triple_u32(size), triple_u32(lo), triple_u32(hi)),
                is_sub,
                cell_cap(grid@[c]),
            ),
        forall|c: int|
            0 <= c < grid@.len() && #[trigger] fills(
                old(cur)@[c] as int,
                in_box(c, triple_u32(size), triple_u32(lo), triple_u32(hi)),
                is_sub,
                cell_cap(grid@[c]),
            ) ==> final(indices)@[cell_offset(grid@[c]) + old(cur)@[c]] == id,
        forall|p: int|
            0 <= p < old(indices)@.len() ==> #[trigger] final(indices)@[p] == old(indices)@[p]
                || exists|c: int|
                0 <= c < grid@.len() && #[trigger] fills(
                    old(cur)@[c] as int,
                    in_box(c, triple_u32(size), triple_u32(lo), triple_u32(hi)),
                    is_sub,
                    cell_cap(grid@[c]),
                ) && p == cell_offset(grid@[c]) + old(cur)@[c],
{
    let ghost ext = triple_u32(size);
    let ghost g0 = old(cur)@;
    let ghost i0 = old(indices)@;
    let ghost blo = triple_u32(lo);
    let ghost bhi = triple_u32(hi);
    let sx = size[0] as usize;
    let sz = size[2] as usize;
    let mut y = lo[1];
    while y <= hi[1]
        invariant
            lo[1] <= y <= hi[1] + 1,
            hi[1] < size[1],
            lo[0] <= hi[0] < size[0],
            lo[2] <= hi[2] < size[2],
            ext == triple_u32(size),
            blo == triple_u32(lo),
            bhi == triple_u32(hi),
            sx == size[0],
            sz == size[2],
            cur@.len() == g0.len(),
            indices@.len() == i0.len(),
            g0.len() == cell_total(ext),
            grid@.len() == cell_total(ext),
            cell_total(ext) <= u32::MAX,
            forall|c: int| 0 <= c < grid@.len() ==> g0[c] <= cell_cap(grid@[c]),
            forall|c: int|
                0 <= c < grid@.len() ==> cell_offset(grid@[c]) + cell_cap(grid@[c]) <= i0.len(),
            forall|c: int|
                0 <= c < g0.len() ==> #[trigger] cur@[c] as int == if in_box(c, ext, blo, bhi)
                    && visited(c, ext, lo[0] as int, y as int, lo[2] as int) {
                    fill_step(g0[c] as int, true, is_sub, cell_cap(grid@[c]))
                } else {
                    g0[c] as int
                },
            forall|c: int|
                0 <= c < grid@.len() && visited(c, ext, lo[0] as int, y as int, lo[2] as int)
                    && #[trigger] fills(g0[c] as int, in_box(c, ext, blo, bhi), is_sub, cell_cap(grid@[c]))
                    ==> indices@[cell_offset(grid@[c]) + g0[c]] == id,
            forall|p: int|
                0 <= p < i0.len() ==> #[trigger] indices@[p] == i0[p] || exists|c: int|
                    0 <= c < grid@.len() && #[trigger] fills(
                        g0[c] as int,
                        in_box(c, ext, blo, bhi),
                        is_sub,
                        cell_cap(grid@[c]),
                    ) && p == cell_offset(grid@[c]) + g0[c],
        decreases hi[1] + 1 - y,
    {
        let mut z = lo[2];
        while z <= hi[2]
            invariant
                lo[1] <= y <= hi[1],
                lo[2] <= z <= hi[2] + 1,
                hi[1] < size[1],
                lo[0] <= hi[0] < size[0],
                hi[2] < size[2],
                ext == triple_u32(size),
                blo == triple_u32(lo),
                bhi == triple_u32(hi),
                sx == size[0],
                sz == size[2],
                cur@.len() == g0.len(),
                indices@.len() == i0.len(),
                g0.len() == cell_total(ext),
                grid@.len() == cell_total(ext),
                cell_total(ext) <= u32::MAX,
                forall|c: int| 0 <= c < grid@.len() ==> g0[c] <= cell_cap(grid@[c]),
                forall|c: int|
                    0 <= c < grid@.len() ==> cell_offset(grid@[c]) + cell_cap(grid@[c]) <= i0.len(),
                forall|c: int|
                    0 <= c < g0.len() ==> #[trigger] cur@[c] as int == if in_box(c, ext, blo, bhi)
                        && visited(c, ext, lo[0] as int, y as int, z as int) {
                        fill_step(g0[c] as int, true, is_sub, cell_cap(grid@[c]))
                    } else {
                        g0[c] as int
                    },
                forall|c: int|
                    0 <= c < grid@.len() && visited(c, ext, lo[0] as int, y as int, z as int)
                        && #[trigger] fills(g0[c] as int, in_box(c, ext, blo, bhi), is_sub, cell_cap(grid@[c]))
                        ==> indices@[cell_offset(grid@[c]) + g0[c]] == id,
                forall|p: int|
                    0 <= p < i0.len() ==> #[trigger] indices@[p] == i0[p] || exists|c: int|
                        0 <= c < grid@.len() && #[trigger] fills(
                            g0[c] as int,
                            in_box(c, ext, blo, bhi),
                            is_sub,
                            cell_cap(grid@[c]),
                        ) && p == cell_offset(grid@[c]) + g0[c],
            decreases hi[2] + 1 - z,
        {
            let mut x = lo[0];
            while x <= hi[0]
                invariant
                    lo[1] <= y <= hi[1],
                    lo[2] <= z <= hi[2],
                    lo[0] <= x <= hi[0] + 1,
                    hi[1] < size[1],
                    hi[0] < size[0],
                    hi[2] < size[2],
                    ext == triple_u32(size),
                    blo == triple_u32(lo),
                    bhi == triple_u32(hi),
                    sx == size[0],
                    sz == size[2],
                    cur@.len() == g0.len(),
                    indices@.len() == i0.len(),
                    g0.len() == cell_total(ext),
                    grid@.len() == cell_total(ext),
                    cell_total(ext) <= u32::MAX,
                    forall|c: int| 0 <= c < grid@.len() ==> g0[c] <= cell_cap(grid@[c]),
                    forall|c: int|
                        0 <= c < grid@.len() ==> cell_offset(grid@[c]) + cell_cap(grid@[c])
                            <= i0.len(),
                    forall|c: int|
                        0 <= c < g0.len() ==> #[trigger] cur@[c] as int == if in_box(
                            c,
                            ext,
                            blo,
                            bhi,
                        ) && visited(c, ext, x as int, y as int, z as int) {
                            fill_step(g0[c] as int, true, is_sub, cell_cap(grid@[c]))
                        } else {
                            g0[c] as int
                        },
                    forall|c: int|
                        0 <= c < grid@.len() && visited(c, ext, x as int, y as int, z as int)
                            && #[trigger] fills(g0[c] as int, in_box(c, ext, blo, bhi), is_sub, cell_cap(grid@[c]))
                            ==> indices@[cell_offset(grid@[c]) + g0[c]] == id,
                    forall|p: int|
                        0 <= p < i0.len() ==> #[trigger] indices@[p] == i0[p] || exists|c: int|
                            0 <= c < grid@.len() && #[trigger] fills(
                                g0[c] as int,
                                in_box(c, ext, blo, bhi),
                                is_sub,
                                cell_cap(grid@[c]),
                            ) && p == cell_offset(grid@[c]) + g0[c],
                decreases hi[0] + 1 - x,
            {
                proof {
                    lemma_cell_index(x as int, y as int, z as int, ext);
                }
                let ghost ci = cell_index(x as int, y as int, z as int, ext);
                assert(y * ext.2 <= y * ext.2 + z <= (y * ext.2 + z) * ext.0 <= ci) by (nonlinear_arith)
                    requires
                        ci == (y * ext.2 + z) * ext.0 + x,
                        ext.0 >= 1,
                        z >= 0,
                        x >= 0,
                        y >= 0,
                        ext.2 >= 0,
                ;
                let c = (y as usize * sz + z as usize) * sx + x as usize;
                assert(c == ci) by (nonlinear_arith)
                    requires
                        c == (y * sz + z) * sx + x,
                        ci == (y * ext.2 + z) * ext.0 + x,
                        sz == ext.2,
                        sx == ext.0,
                ;
                let cell_info = grid[c];
                let offset = cell_info >> 8;
                let max_n = cell_info & 0xFF;
                let n = cur[c];
                assert(!visited(ci, ext, x as int, y as int, z as int));
                assert(n == g0[ci]);
                if !is_sub || n > 0 {
                    if n < max_n {
                        assert(cell_offset(grid@[ci]) + cell_cap(grid@[ci]) <= i0.len());
                        assert(offset as int == cell_offset(grid@[ci]));
                        assert(max_n as int == cell_cap(grid@[ci]));
                        assert(i0.len() == indices@.len());
                        let ilen = indices.len();
                        assert((offset as int) + (n as int) < ilen);
                        indices.set(offset as usize + n as usize, id);
                        cur.set(c, n + 1);
                    }
                }
                proof {
                    let q = cell_offset(grid@[ci]) + g0[ci];
                    assert forall|c2: int| 0 <= c2 < g0.len() implies #[trigger] cur@[c2] as int
                        == if in_box(c2, ext, blo, bhi) && visited(
                        c2,
                        ext,
                        x + 1,
                        y as int,
                        z as int,
                    ) {
                        fill_step(g0[c2] as int, true, is_sub, cell_cap(grid@[c2]))
                    } else {
                        g0[c2] as int
                    } by {
                        if c2 != ci {
                            if cell_x(c2, ext) == x && cell_y(c2, ext) == y && cell_z(c2, ext)
                                == z {
                                lemma_cell_unique(c2, ci, ext);
                            }
                        }
                    }
                    assert forall|c2: int|
                        0 <= c2 < grid@.len() && visited(c2, ext, x + 1, y as int, z as int)
                            && #[trigger] fills(g0[c2] as int, in_box(c2, ext, blo, bhi), is_sub, cell_cap(grid@[c2]))
                            implies indices@[cell_offset(grid@[c2]) + g0[c2]] == id by {
                        if c2 != ci {
                            if cell_x(c2, ext) == x && cell_y(c2, ext) == y && cell_z(c2, ext)
                                == z {
                                lemma_cell_unique(c2, ci, ext);
                            }
                        }
                    }
                    assert forall|p: int| 0 <= p < i0.len() implies #[trigger] indices@[p] == i0[p]
                        || exists|c3: int|
                        0 <= c3 < grid@.len() && #[trigger] fills(
                            g0[c3] as int,
                            in_box(c3, ext, blo, bhi),
                            is_sub,
                            cell_cap(grid@[c3]),
                        ) && p == cell_offset(grid@[c3]) + g0[c3] by {
                        if p == q && fills(g0[ci] as int, in_box(ci, ext, blo, bhi), is_sub, cell_cap(grid@[ci])) {
                            assert(0 <= ci < grid@.len());
                        }
                    }
                }
                x = x + 1;
            }
            z = z + 1;
        }
        y = y + 1;
    }
    proof {
        assert forall|c: int| 0 <= c < g0.len() implies #[trigger] cur@[c] as int == fill_step(
            g0[c] as int,
            in_box(c, ext, blo, bhi),
            is_sub,
            cell_cap(grid@[c]),
        ) by {
            lemma_cell_coords(c, ext);
        }
        assert forall|c: int|
            0 <= c < grid@.len() && #[trigger] fills(g0[c] as int, in_box(c, ext, blo, bhi), is_sub, cell_cap(grid@[c]))
            implies indices@[cell_offset(grid@[c]) + g0[c]] == id by {
            lemma_cell_coords(c, ext);
        }
    }
}


// ---------------------------------------------------------------------
// The grid that a set of brushes determines
// ---------------------------------------------------------------------

/// Slots below `n` that are not in the free list, in increasing order.
pub open spec fn active_upto(free: Seq<u16>, n: int) -> Seq<u16>
    decreases n,
{
    if n <= 0 {
        Seq::empty()
    } else {
        let p = active_upto(free, n - 1);
        if free.contains((n - 1) as u16) {
            p
        } else {
            p.push((n - 1) as u16)
        }
    }
}

/// Lower bound along axis `k` of the bounding boxes of the brushes in `act` (non-empty).
pub open spec fn world_lo(bs: Seq<Brush>, act: Seq<u16>, k: int) -> int
    decreases act.len(),
{
    if act.len() <= 1 {
        aabb_lo(bs[act[0] as int], k)
    } else {
        min_int(world_lo(bs, act.drop_last(), k), aabb_lo(bs[act.last() as int], k))
    }
}

/// Upper bound along axis `k` of the bounding boxes of the brushes in `act` (non-empty).
pub open spec fn world_hi(bs: Seq<Brush>, act: Seq<u16>, k: int) -> int
    decreases act.len(),
{
    if act.len() <= 1 {
        aabb_hi(bs[act[0] as int], k)
    } else {
        max_int(world_hi(bs, act.drop_last(), k), aabb_hi(bs[act.last() as int], k))
    }
}

pub open spec fn units() -> int {
    UNITS_PER_METER as int
}

/// First cell along axis `k`, in metres: the bounds padded by one metre, rounded down.
pub open spec fn origin_axis(bs: Seq<Brush>, act: Seq<u16>, k: int) -> int {
    (world_lo(bs, act, k) - units()) / units()
}

/// End of the grid along axis `k`, in metres: the bounds padded by one metre, rounded up.
pub open spec fn end_axis(bs: Seq<Brush>, act: Seq<u16>, k: int) -> int {
    -((-(world_hi(bs, act, k) + units())) / units())
}

pub open spec fn grid_origin(bs: Seq<Brush>, act: Seq<u16>) -> Triple {
    (origin_axis(bs, act, 0), origin_axis(bs, act, 1), origin_axis(bs, act, 2))
}

pub open spec fn grid_extent(bs: Seq<Brush>, act: Seq<u16>) -> Triple {
    (
        end_axis(bs, act, 0) - origin_axis(bs, act, 0),
        end_axis(bs, act, 1) - origin_axis(bs, act, 1),
        end_axis(bs, act, 2) - origin_axis(bs, act, 2),
    )
}

/// First cell of brush `b` along axis `k` (not clamped above).
pub open spec fn cell_lo(b: Brush, origin: Triple, k: int) -> int {
    max_int(0, (aabb_lo(b, k) - coord(origin, k) * units()) / units())
}

/// Last cell of brush `b` along axis `k`, clamped into the grid.
pub open spec fn cell_hi(b: Brush, origin: Triple, ext: Triple, k: int) -> int {
    min_int(
        coord(ext, k) - 1,
        max_int(0, -((-(aabb_hi(b, k) - coord(origin, k) * units())) / units())),
    )
}

pub open spec fn brush_lo(b: Brush, origin: Triple) -> Triple {
    (cell_lo(b, origin, 0), cell_lo(b, origin, 1), cell_lo(b, origin, 2))
}

pub open spec fn brush_hi(b: Brush, origin: Triple, ext: Triple) -> Triple {
    (cell_hi(b, origin, ext, 0), cell_hi(b, origin, ext, 1), cell_hi(b, origin, ext, 2))
}

/// Brush `b` overlaps cell `c`.
pub open spec fn covers(b: Brush, origin: Triple, ext: Triple, c: int) -> bool {
    in_box(c, ext, brush_lo(b, origin), brush_hi(b, origin, ext))
}

/// The brushes listed in cell `c`, in the order of `act`: every covering brush,
/// except that a subtracting brush is only listed after some other brush, and
/// at most 255 brushes are listed.
pub open spec fn cell_members(bs: Seq<Brush>, act: Seq<u16>, origin: Triple, ext: Triple, c: int) -> Seq<u16>
    decreases act.len(),
{
    if act.len() == 0 {
        Seq::empty()
    } else {
        let s = cell_members(bs, act.drop_last(), origin, ext, c);
        let i = act.last();
        let b = bs[i as int];
        if covers(b, origin, ext, c) && (b.op != OP_SUB || s.len() > 0) && s.len()
            < MAX_CELL_BRUSHES {
            s.push(i)
        } else {
            s
        }
    }
}

pub open spec fn cell_count(bs: Seq<Brush>, act: Seq<u16>, origin: Triple, ext: Triple, c: int) -> int {
    cell_members(bs, act, origin, ext, c).len() as int
}

/// Number of listed brushes in the cells before cell `n`.
pub open spec fn count_prefix(bs: Seq<Brush>, act: Seq<u16>, origin: Triple, ext: Triple, n: int) -> int
    decreases n,
{
    if n <= 0 {
        0
    } else {
        count_prefix(bs, act, origin, ext, n - 1) + cell_count(bs, act, origin, ext, n - 1)
    }
}

/// The error, if any, that building the grid of these brushes meets.
pub open spec fn grid_error(bs: Seq<Brush>, free: Seq<u16>) -> Option<GridError> {
    let act = active_upto(free, bs.len() as int);
    let origin = grid_origin(bs, act);
    let ext = grid_extent(bs, act);
    if act.len() == 0 {
        None
    } else if cell_total(ext) > u32::MAX {
        Some(GridError::TooLarge)
    } else if count_prefix(bs, act, origin, ext, cell_total(ext) - 1) > MAX_CELL_OFFSET {
        Some(GridError::OffsetOverflow)
    } else {
        None
    }
}

pub proof fn lemma_members_bounded(bs: Seq<Brush>, act: Seq<u16>, origin: Triple, ext: Triple, c: int)
    ensures
        cell_members(bs, act, origin, ext, c).len() <= MAX_CELL_BRUSHES,
    decreases act.len(),
{
    if act.len() > 0 {
        lemma_members_bounded(bs, act.drop_last(), origin, ext, c);
    }
}

/// Listing the first `k` brushes gives a prefix of the list for the first `m >= k`.
pub proof fn lemma_members_prefix(
    bs: Seq<Brush>,
    act: Seq<u16>,
    origin: Triple,
    ext: Triple,
    c: int,
    k: int,
    m: int,
)
    requires
        0 <= k <= m <= act.len(),
    ensures
        cell_members(bs, act.take(k), origin, ext, c).len() <= cell_members(
            bs,
            act.take(m),
            origin,
            ext,
            c,
        ).len(),
        forall|j: int|
            0 <= j < cell_members(bs, act.take(k), origin, ext, c).len() ==> cell_members(
                bs,
                act.take(k),
                origin,
                ext,
                c,
            )[j] == cell_members(bs, act.take(m), origin, ext, c)[j],
    decreases m - k,
{
    if k < m {
        lemma_members_prefix(bs, act, origin, ext, c, k, m - 1);
        assert(act.take(m).drop_last() =~= act.take(m - 1));
    }
}

pub proof fn lemma_prefix_monotone(bs: Seq<Brush>, act: Seq<u16>, origin: Triple, ext: Triple, a: int, b: int)
    requires
        0 <= a <= b,
    ensures
        count_prefix(bs, act, origin, ext, a) <= count_prefix(bs, act, origin, ext, b),
    decreases b - a,
{
    if a < b {
        lemma_prefix_monotone(bs, act, origin, ext, a, b - 1);
    }
}

/// The index-buffer segments of two different cells do not overlap.
pub proof fn lemma_segments_disjoint(
    bs: Seq<Brush>,
    act: Seq<u16>,
    origin: Triple,
    ext: Triple,
    c1: int,
    c2: int,
)
    requires
        0 <= c1 < c2,
    ensures
        count_prefix(bs, act, origin, ext, c1) + cell_count(bs, act, origin, ext, c1)
            <= count_prefix(bs, act, origin, ext, c2),
{
    lemma_prefix_monotone(bs, act, origin, ext, c1 + 1, c2);
}

/// Listing brush `k` in a cell adds an entry exactly when counting it did.
pub proof fn lemma_fill_matches_count(
    bs: Seq<Brush>,
    act: Seq<u16>,
    origin: Triple,
    ext: Triple,
    k: int,
    c: int,
)
    requires
        0 <= k < act.len(),
    ensures
        ({
            let b = bs[act[k] as int];
            let mk = cell_members(bs, act.take(k), origin, ext, c);
            let mk1 = cell_members(bs, act.take(k + 1), origin, ext, c);
            let n = cell_count(bs, act, origin, ext, c);
            &&& mk.len() <= n
            &&& n <= MAX_CELL_BRUSHES
            &&& fills(mk.len() as int, covers(b, origin, ext, c), b.op == OP_SUB, n) ==> mk1
                == mk.push(act[k])
            &&& !fills(mk.len() as int, covers(b, origin, ext, c), b.op == OP_SUB, n) ==> mk1
                == mk
        }),
{
    assert(act.take(k + 1).drop_last() =~= act.take(k));
    assert(act.take(k + 1).last() == act[k]);
    assert(act.take(act.len() as int) =~= act);
    lemma_members_prefix(bs, act, origin, ext, c, k + 1, act.len() as int);
    lemma_members_prefix(bs, act, origin, ext, c, k, act.len() as int);
    lemma_members_bounded(bs, act, origin, ext, c);
}

pub proof fn lemma_pack(o: u32, n: u32)
    requires
        o <= 0xFFFFFF,
        n <= 0xFF,
    ensures
        ((o << 8) | n) as int == o as int * 256 + n as int,
        ((o << 8) | n) >> 8 == o,
        ((o << 8) | n) & 0xFF == n,
{
    assert(o <= 0xFFFFFF && n <= 0xFF ==> ((o << 8) | n) as int == o as int * 256 + n as int)
        by (bit_vector);
    assert(o <= 0xFFFFFF && n <= 0xFF ==> ((o << 8) | n) >> 8 == o) by (bit_vector);
    assert(o <= 0xFFFFFF && n <= 0xFF ==> ((o << 8) | n) & 0xFF == n) by (bit_vector);
}

/// A grid axis spans at least one cell: the padded bounds round outwards.
pub proof fn lemma_extent_positive(lo: int, hi: int)
    requires
        lo <= hi,
    ensures
        -((-(hi + units())) / units()) - (lo - units()) / units() >= 1,
{
    let u = units();
    let a = lo - u;
    let b = -(hi + u);
    lemma_fundamental_div_mod(a, u);
    lemma_fundamental_div_mod(b, u);
    let qa = a / u;
    let qb = b / u;
    assert(qa + qb <= -1) by (nonlinear_arith)
        requires
            a == u * qa + a % u,
            b == u * qb + b % u,
            0 <= a % u < u,
            0 <= b % u < u,
            a + b <= -2 * u,
            u > 0,
    ;
}


pub proof fn lemma_world_lo_le_first(bs: Seq<Brush>, act: Seq<u16>, k: int)
    requires
        act.len() >= 1,
    ensures
        world_lo(bs, act, k) <= aabb_lo(bs[act[0] as int], k),
        world_hi(bs, act, k) >= aabb_hi(bs[act[0] as int], k),
    decreases act.len(),
{
    if act.len() > 1 {
        lemma_world_lo_le_first(bs, act.drop_last(), k);
    }
}

pub proof fn lemma_world_lo_le_hi(bs: Seq<Brush>, act: Seq<u16>, k: int)
    requires
        act.len() >= 1,
    ensures
        world_lo(bs, act, k) <= world_hi(bs, act, k),
{
    lemma_world_lo_le_first(bs, act, k);
    lemma_corners_min_le_max(bs[act[0] as int], 8, k);
}

pub proof fn lemma_active_valid(free: Seq<u16>, n: int)
    requires
        0 <= n <= MAX_BRUSHES,
    ensures
        forall|j: int| 0 <= j < active_upto(free, n).len() ==> #[trigger] active_upto(free, n)[j] < n,
        active_upto(free, n).len() <= n,
    decreases n,
{
    if n > 0 {
        lemma_active_valid(free, n - 1);
    }
}

/// The world: the brushes, the free slots and the acceleration grid,
/// together with the comments read from the map file it came from.
pub struct World {
    /// List of brushes in the world.
    /// The order in which brushes are added matters,
    /// because some brushes subtract from the world (OP_SUB).
    pub brushes: Vec<Brush>,
    /// Slots whose brushes were removed, reused last-in first-out.
    pub free_indices: Vec<u16>,
    /// One packed u32 per one-metre cell: (offset << 8) | count.
    pub grid: Vec<u32>,
    pub grid_indices: Vec<u16>,
    /// Position of the first grid cell, in metres.
    pub grid_min: Point,
    /// Number of grid cells along each axis.
    pub grid_size: [u32; 3],
    /// Text before the first entry of the map file.
    pub header: Vec<u8>,
    /// Text before each brush entry of the map file, by brush id.
    pub comments: HashMap<u16, Vec<u8>>,
}

impl World {
    pub open spec fn brushes_view(&self) -> Seq<Brush> {
        self.brushes@
    }

    pub open spec fn free_view(&self) -> Seq<u16> {
        self.free_indices@
    }

    /// Every free slot is a slot of the world, and the slots fit in a u16 id.
    pub open spec fn wf(&self) -> bool {
        &&& self.brushes_view().len() <= MAX_BRUSHES
        &&& forall|j: int|
            0 <= j < self.free_view().len() ==> #[trigger] self.free_view()[j]
                < self.brushes_view().len()
    }

    /// Ids of the brushes in use, in increasing order.
    pub open spec fn active(&self) -> Seq<u16> {
        active_upto(self.free_view(), self.brushes_view().len() as int)
    }

    /// The grid fields describe the brushes in use.
    pub open spec fn grid_built(&self) -> bool {
        let bs = self.brushes_view();
        let act = self.active();
        let origin = grid_origin(bs, act);
        let ext = grid_extent(bs, act);
        let count = cell_total(ext);
        let total = count_prefix(bs, act, origin, ext, count);
        if act.len() == 0 {
            &&& self.grid@.len() == 0
            &&& self.grid_indices@.len() == 0
            &&& self.grid_size == [0u32, 0u32, 0u32]
        } else {
            &&& point_view(self.grid_min) == origin
            &&& triple_u32(self.grid_size) == ext
            &&& self.grid@.len() == count
            &&& forall|c: int|
                0 <= c < count ==> #[trigger] self.grid@[c] as int == count_prefix(
                    bs,
                    act,
                    origin,
                    ext,
                    c,
                ) * 256 + cell_count(bs, act, origin, ext, c)
            &&& self.grid_indices@.len() == total + total % 2
            &&& forall|c: int, j: int|
                0 <= c < count && 0 <= j < cell_count(bs, act, origin, ext, c)
                    ==> #[trigger] self.grid_indices@[count_prefix(bs, act, origin, ext, c) + j]
                    == #[trigger] cell_members(bs, act, origin, ext, c)[j]
            &&& total % 2 == 1 ==> self.grid_indices@[total] == 0
        }
    }

    /// Whether slot `i` is in the free list.
    fn is_free(&self, i: u16) -> (r: bool)
        ensures
            r == self.free_view().contains(i),
    {
        let mut j: usize = 0;
        while j < self.free_indices.len()
            invariant
                0 <= j <= self.free_indices@.len(),
                forall|m: int| 0 <= m < j ==> self.free_indices@[m] != i,
            decreases self.free_indices@.len() - j,
        {
            if self.free_indices[j] == i {
                return true;
            }
            j = j + 1;
        }
        false
    }

    /// The ids of the brushes in use and the bounds of their bounding boxes.
    fn collect_active(&self) -> (r: (Vec<u16>, Point, Point))
        requires
            self.wf(),
        ensures
            r.0@ == self.active(),
            r.0@.len() > 0 ==> {
                &&& r.1.x == world_lo(self.brushes_view(), r.0@, 0)
                &&& r.1.y == world_lo(self.brushes_view(), r.0@, 1)
                &&& r.1.z == world_lo(self.brushes_view(), r.0@, 2)
                &&& r.2.x == world_hi(self.brushes_view(), r.0@, 0)
                &&& r.2.y == world_hi(self.brushes_view(), r.0@, 1)
                &&& r.2.z == world_hi(self.brushes_view(), r.0@, 2)
                &&& point_bounded(r.1)
                &&& point_bounded(r.2)
            },
    {
        let ghost bs = self.brushes_view();
        let ghost free = self.free_view();
        let mut active: Vec<u16> = Vec::new();
        let mut wmin = Point { x: 0, y: 0, z: 0 };
        let mut wmax = Point { x: 0, y: 0, z: 0 };
        let n = self.brushes.len();
        let mut i: usize = 0;
        while i < n
            invariant
                n == bs.len(),
                bs == self.brushes_view(),
                free == self.free_view(),
                n <= MAX_BRUSHES,
                0 <= i <= n,
                active@ == active_upto(free, i as int),
                active@.len() > 0 ==> {
                    &&& wmin.x == world_lo(bs, active@, 0)
                    &&& wmin.y == world_lo(bs, active@, 1)
                    &&& wmin.z == world_lo(bs, active@, 2)
                    &&& wmax.x == world_hi(bs, active@, 0)
                    &&& wmax.y == world_hi(bs, active@, 1)
                    &&& wmax.z == world_hi(bs, active@, 2)
                    &&& point_bounded(wmin)
                    &&& point_bounded(wmax)
                },
            decreases n - i,
        {
            let id = i as u16;
            assert(id as int == i);
            if !self.is_free(id) {
                let (bmin, bmax) = self.brushes[i].get_aabb();
                if active.len() == 0 {
                    wmin = bmin;
                    wmax = bmax;
                } else {
                    if bmin.x < wmin.x {
                        wmin.x = bmin.x;
                    }
                    if bmin.y < wmin.y {
                        wmin.y = bmin.y;
                    }
                    if bmin.z < wmin.z {
                        wmin.z = bmin.z;
                    }
                    if bmax.x > wmax.x {
                        wmax.x = bmax.x;
                    }
                    if bmax.y > wmax.y {
                        wmax.y = bmax.y;
                    }
                    if bmax.z > wmax.z {
                        wmax.z = bmax.z;
                    }
                }
                let ghost prev = active@;
                active.push(id);
                assert(active@.drop_last() =~= prev);
            }
            i = i + 1;
        }
        (active, wmin, wmax)
    }
}


/// Cells `lo..=hi` of a brush along one axis whose bounds are `bmin..bmax`,
/// in a grid starting at `o` metres with `e` cells.
fn axis_cells(bmin: i128, bmax: i128, o: i128, e: i128) -> (r: (i128, i128))
    requires
        -0x10000000000000000000000000 <= bmin <= 0x10000000000000000000000000,
        -0x10000000000000000000000000 <= bmax <= 0x10000000000000000000000000,
        -0x20000000000000000000000000 <= o <= 0x20000000000000000000000000,
        1 <= e <= u32::MAX,
    ensures
        r.0 == max_int(0, (bmin - o * units()) / units()),
        r.1 == min_int(e - 1, max_int(0, -((-(bmax - o * units())) / units()))),
        0 <= r.1 < e,
{
    let u = UNITS_PER_METER as i128;
    assert(-0x20000000000000000000000000 * 1000000 <= o * 1000000 <= 0x20000000000000000000000000 * 1000000) by (nonlinear_arith)
        requires
            -0x20000000000000000000000000 <= o <= 0x20000000000000000000000000,
    ;
    let shift = o * u;
    let a = floor_div(bmin - shift, u);
    let lo = if a < 0 { 0 } else { a };
    let b = ceil_div(bmax - shift, u);
    let b0 = if b < 0 { 0 } else { b };
    let hi = if b0 < e - 1 { b0 } else { e - 1 };
    (lo, hi)
}

impl World {
    /// The cells that brush `b` overlaps, as an inclusive box, or `None` when it overlaps none.
    fn brush_cells(b: &Brush, origin: Point, ext: [u32; 3]) -> (r: Option<([u32; 3], [u32; 3])>)
        requires
            -0x20000000000000000000000000 <= origin.x <= 0x20000000000000000000000000,
            -0x20000000000000000000000000 <= origin.y <= 0x20000000000000000000000000,
            -0x20000000000000000000000000 <= origin.z <= 0x20000000000000000000000000,
            ext[0] >= 1,
            ext[1] >= 1,
            ext[2] >= 1,
        ensures
            match r {
                Some((lo, hi)) => {
                    &&& triple_u32(lo) == brush_lo(*b, point_view(origin))
                    &&& triple_u32(hi) == brush_hi(*b, point_view(origin), triple_u32(ext))
                    &&& lo[0] <= hi[0] < ext[0]
                    &&& lo[1] <= hi[1] < ext[1]
                    &&& lo[2] <= hi[2] < ext[2]
                },
                None => forall|c: int|
                    !#[trigger] covers(*b, point_view(origin), triple_u32(ext), c),
            },
    {
        let (bmin, bmax) = b.get_aabb();
        let (lx, hx) = axis_cells(bmin.x, bmax.x, origin.x, ext[0] as i128);
        let (ly, hy) = axis_cells(bmin.y, bmax.y, origin.y, ext[1] as i128);
        let (lz, hz) = axis_cells(bmin.z, bmax.z, origin.z, ext[2] as i128);
        if lx > hx || ly > hy || lz > hz {
            return None;
        }
        Some(([lx as u32, ly as u32, lz as u32], [hx as u32, hy as u32, hz as u32]))
    }

    /// Rebuild the acceleration grid from the brushes in use.
    pub fn rebuild_grid(&mut self) -> (res: Result<(), GridError>)
        requires
            old(self).wf(),
        ensures
            final(self).wf(),
            final(self).brushes_view() == old(self).brushes_view(),
            final(self).free_view() == old(self).free_view(),
            final(self).header == old(self).header,
            final(self).comments@ == old(self).comments@,
            res == match grid_error(old(self).brushes_view(), old(self).free_view()) {
                None => Ok::<(), GridError>(()),
                Some(e) => Err(e),
            },
            res is Ok ==> final(self).grid_built(),
            old(self).active().len() == 0 ==> final(self).grid_min == old(self).grid_min,
    {
        let ghost bs = self.brushes_view();
        let ghost free = self.free_view();
        // 1. Find the bounds of all brushes in use
        let (active, world_min, world_max) = self.collect_active();
        let ghost act = active@;
        proof {
            lemma_active_valid(free, bs.len() as int);
        }
        if active.len() == 0 {
            self.grid.clear();
            self.grid_indices.clear();
            self.grid_size = [0, 0, 0];
            return Ok(());
        }
        // 2. Pad the bounds and determine the grid size
        let (origin_pt, ex, ey, ez) = grid_frame(world_min, world_max, Ghost(bs), Ghost(act));
        let ghost origin = grid_origin(bs, act);
        let ghost ext = grid_extent(bs, act);
        if ex > 0xFFFF_FFFF || ey > 0xFFFF_FFFF || ez > 0xFFFF_FFFF {
            assert(cell_total(ext) > u32::MAX) by (nonlinear_arith)
                requires
                    ext.0 >= 1,
                    ext.1 >= 1,
                    ext.2 >= 1,
                    ext.0 > 0xFFFF_FFFF || ext.1 > 0xFFFF_FFFF || ext.2 > 0xFFFF_FFFF,
            ;
            return Err(GridError::TooLarge);
        }
        assert(ex * ey <= 0xFFFF_FFFF * 0xFFFF_FFFF) by (nonlinear_arith)
            requires
                1 <= ex <= 0xFFFF_FFFF,
                1 <= ey <= 0xFFFF_FFFF,
        ;
        assert(1 <= ex * ey * ez <= 0xFFFF_FFFF * 0xFFFF_FFFF * 0xFFFF_FFFF) by (nonlinear_arith)
            requires
                1 <= ex <= 0xFFFF_FFFF,
                1 <= ey <= 0xFFFF_FFFF,
                ex * ey <= 0xFFFF_FFFF * 0xFFFF_FFFF,
                1 <= ez <= 0xFFFF_FFFF,
        ;
        let cells = ex * ey * ez;
        if cells > 0xFFFF_FFFF {
            return Err(GridError::TooLarge);
        }
        let size: [u32; 3] = [ex as u32, ey as u32, ez as u32];
        self.grid_min = origin_pt;
        self.grid_size = size;
        assert(triple_u32(size) == ext);
        let count = cells as usize;
        self.grid.clear();
        self.grid.resize(count, 0);
        // 3. Count brushes per cell
        count_cells(&mut self.grid, &self.brushes, &active, origin_pt, size);
        // 4. Prefix sum to find offsets
        let total = match prefix_cells(&mut self.grid, &self.brushes, &active, origin_pt, size) {
            Ok(t) => t,
            Err(e) => {
                return Err(e);
            },
        };
        // 5. Fill the index buffer
        self.grid_indices.clear();
        self.grid_indices.resize(total, 0);
        fill_cells(&mut self.grid_indices, &self.grid, &self.brushes, &active, origin_pt, size);
        let ghost filled = self.grid_indices@;
        if self.grid_indices.len() % 2 != 0 {
            self.grid_indices.push(0);
        }
        proof {
            let origin = point_view(origin_pt);
            assert forall|c: int, j: int|
                0 <= c < count && 0 <= j < cell_count(bs, act, origin, ext, c)
                    implies #[trigger] self.grid_indices@[count_prefix(bs, act, origin, ext, c) + j]
                    == #[trigger] cell_members(bs, act, origin, ext, c)[j] by {
                lemma_prefix_monotone(bs, act, origin, ext, c + 1, count as int);
                lemma_prefix_monotone(bs, act, origin, ext, 0, c);
                assert(count as int == cell_total(ext));
                assert(filled.len() == count_prefix(bs, act, origin, ext, count as int));
                assert(count_prefix(bs, act, origin, ext, c) + j < filled.len());
                assert(self.grid_indices@[count_prefix(bs, act, origin, ext, c) + j] == filled[count_prefix(bs, act, origin, ext, c) + j]);
            }
        }
        Ok(())
    }
}

/// Origin (in metres) and extent (in cells) of the grid around the given bounds.
fn grid_frame(world_min: Point, world_max: Point, Ghost(bs): Ghost<Seq<Brush>>, Ghost(act): Ghost<Seq<u16>>) -> (r: (Point, i128, i128, i128))
    requires
        act.len() > 0,
        point_bounded(world_min),
        point_bounded(world_max),
        world_min.x == world_lo(bs, act, 0),
        world_min.y == world_lo(bs, act, 1),
        world_min.z == world_lo(bs, act, 2),
        world_max.x == world_hi(bs, act, 0),
        world_max.y == world_hi(bs, act, 1),
        world_max.z == world_hi(bs, act, 2),
    ensures
        point_view(r.0) == grid_origin(bs, act),
        (r.1 as int, r.2 as int, r.3 as int) == grid_extent(bs, act),
        r.1 >= 1,
        r.2 >= 1,
        r.3 >= 1,
        -0x20000000000000000000000000 <= r.0.x <= 0x20000000000000000000000000,
        -0x20000000000000000000000000 <= r.0.y <= 0x20000000000000000000000000,
        -0x20000000000000000000000000 <= r.0.z <= 0x20000000000000000000000000,
{
    let u = UNITS_PER_METER as i128;
    let ox = floor_div(world_min.x - u, u);
    let oy = floor_div(world_min.y - u, u);
    let oz = floor_div(world_min.z - u, u);
    let cx = ceil_div(world_max.x + u, u);
    let cy = ceil_div(world_max.y + u, u);
    let cz = ceil_div(world_max.z + u, u);
    proof {
        lemma_world_lo_le_hi(bs, act, 0);
        lemma_world_lo_le_hi(bs, act, 1);
        lemma_world_lo_le_hi(bs, act, 2);
        lemma_extent_positive(world_lo(bs, act, 0), world_hi(bs, act, 0));
        lemma_extent_positive(world_lo(bs, act, 1), world_hi(bs, act, 1));
        lemma_extent_positive(world_lo(bs, act, 2), world_hi(bs, act, 2));
    }
    (Point { x: ox, y: oy, z: oz }, cx - ox, cy - oy, cz - oz)
}

/// Count the brushes listed in each cell.
fn count_cells(grid: &mut Vec<u32>, brushes: &Vec<Brush>, active: &Vec<u16>, origin_pt: Point, size: [u32; 3])
    requires
        old(grid)@.len() == cell_total(triple_u32(size)),
        forall|c: int| 0 <= c < old(grid)@.len() ==> #[trigger] old(grid)@[c] == 0u32,
        cell_total(triple_u32(size)) <= u32::MAX,
        forall|j: int| 0 <= j < active@.len() ==> #[trigger] active@[j] < brushes@.len(),
        size[0] >= 1,
        size[1] >= 1,
        size[2] >= 1,
        -0x20000000000000000000000000 <= origin_pt.x <= 0x20000000000000000000000000,
        -0x20000000000000000000000000 <= origin_pt.y <= 0x20000000000000000000000000,
        -0x20000000000000000000000000 <= origin_pt.z <= 0x20000000000000000000000000,
    ensures
        final(grid)@.len() == old(grid)@.len(),
        forall|c: int|
            0 <= c < old(grid)@.len() ==> #[trigger] final(grid)@[c] as int == cell_count(
                brushes@,
                active@,
                point_view(origin_pt),
                triple_u32(size),
                c,
            ),
{
    let ghost bs = brushes@;
    let ghost act = active@;
    let ghost origin = point_view(origin_pt);
    let ghost ext = triple_u32(size);
    let ghost count = cell_total(ext);
    let mut k: usize = 0;
    while k < active.len()
        invariant
            0 <= k <= act.len(),
            active@ == act,
            brushes@ == bs,
            forall|j: int| 0 <= j < act.len() ==> #[trigger] act[j] < bs.len(),
            point_view(origin_pt) == origin,
            triple_u32(size) == ext,
            count == cell_total(ext),
            count <= u32::MAX,
            size[0] >= 1,
            size[1] >= 1,
            size[2] >= 1,
            -0x20000000000000000000000000 <= origin_pt.x <= 0x20000000000000000000000000,
            -0x20000000000000000000000000 <= origin_pt.y <= 0x20000000000000000000000000,
            -0x20000000000000000000000000 <= origin_pt.z <= 0x20000000000000000000000000,
            grid@.len() == count,
            forall|c: int|
                0 <= c < count ==> #[trigger] grid@[c] as int == cell_count(
                    bs,
                    act.take(k as int),
                    origin,
                    ext,
                    c,
                ),
        decreases act.len() - k,
    {
        let id = active[k];
        let b = brushes[id as usize];
        let ghost g0 = grid@;
        proof {
            assert forall|c: int| 0 <= c < count implies #[trigger] g0[c] <= MAX_CELL_BRUSHES by {
                lemma_members_bounded(bs, act.take(k as int), origin, ext, c);
            }
        }
        match World::brush_cells(&b, origin_pt, size) {
            Some((lo, hi)) => {
                count_brush(grid, size, lo, hi, b.op == OP_SUB);
            },
            None => {},
        }
        proof {
            assert(act.take(k + 1).drop_last() =~= act.take(k as int));
            assert(act.take(k + 1).last() == id);
            assert forall|c: int| 0 <= c < count implies #[trigger] grid@[c] as int == cell_count(
                bs,
                act.take(k + 1),
                origin,
                ext,
                c,
            ) by {
                let _ = covers(b, origin, ext, c);
            }
        }
        k = k + 1;
    }
    assert(act.take(act.len() as int) =~= act);
}

/// Replace each cell's count by `(offset << 8) | count`, where the offsets are
/// the running sum of the counts; returns the sum of all counts.
fn prefix_cells(grid: &mut Vec<u32>, brushes: &Vec<Brush>, active: &Vec<u16>, origin_pt: Point, size: [u32; 3]) -> (r: Result<usize, GridError>)
    requires
        old(grid)@.len() == cell_total(triple_u32(size)),
        cell_total(triple_u32(size)) <= u32::MAX,
        cell_total(triple_u32(size)) >= 1,
        forall|c: int|
            0 <= c < old(grid)@.len() ==> #[trigger] old(grid)@[c] as int == cell_count(
                brushes@,
                active@,
                point_view(origin_pt),
                triple_u32(size),
                c,
            ),
    ensures
        final(grid)@.len() == old(grid)@.len(),
        match r {
            Ok(total) => {
                &&& count_prefix(brushes@, active@, point_view(origin_pt), triple_u32(size), cell_total(triple_u32(size)) - 1) <= MAX_CELL_OFFSET
                &&& total == count_prefix(brushes@, active@, point_view(origin_pt), triple_u32(size), cell_total(triple_u32(size)))
                &&& forall|c: int|
                    0 <= c < old(grid)@.len() ==> #[trigger] final(grid)@[c] as int == count_prefix(
                        brushes@,
                        active@,
                        point_view(origin_pt),
                        triple_u32(size),
                        c,
                    ) * 256 + cell_count(brushes@, active@, point_view(origin_pt), triple_u32(size), c)
            },
            Err(e) => {
                &&& e == GridError::OffsetOverflow
                &&& count_prefix(brushes@, active@, point_view(origin_pt), triple_u32(size), cell_total(triple_u32(size)) - 1) > MAX_CELL_OFFSET
            },
        },
{
    let ghost bs = brushes@;
    let ghost act = active@;
    let ghost origin = point_view(origin_pt);
    let ghost ext = triple_u32(size);
    let count = grid.len();
    let mut total: usize = 0;
    let mut i: usize = 0;
    while i < count
        invariant
            0 <= i <= count,
            count == cell_total(ext),
            ext == triple_u32(size),
            origin == point_view(origin_pt),
            bs == brushes@,
            act == active@,
            old(grid)@.len() == count,
            count <= u32::MAX,
            count >= 1,
            grid@.len() == count,
            total == count_prefix(bs, act, origin, ext, i as int),
            total <= MAX_CELL_OFFSET + MAX_CELL_BRUSHES,
            i > 0 ==> count_prefix(bs, act, origin, ext, i - 1) <= MAX_CELL_OFFSET,
            forall|c: int|
                0 <= c < i ==> #[trigger] grid@[c] as int == count_prefix(bs, act, origin, ext, c)
                    * 256 + cell_count(bs, act, origin, ext, c),
            forall|c: int|
                i <= c < count ==> #[trigger] grid@[c] as int == cell_count(bs, act, origin, ext, c),
        decreases count - i,
    {
        proof {
            lemma_members_bounded(bs, act, origin, ext, i as int);
            lemma_u32_low_byte(grid@[i as int]);
        }
        let n = (grid[i] & 0xFF) as usize;
        let offset = total;
        // Ensure the offset fits in 24 bits
        if offset > MAX_CELL_OFFSET {
            proof {
                lemma_prefix_monotone(bs, act, origin, ext, i as int, count - 1);
            }
            return Err(GridError::OffsetOverflow);
        }
        proof {
            lemma_pack(offset as u32, n as u32);
        }
        grid.set(i, ((offset as u32) << 8) | (n as u32));
        total = total + n;
        i = i + 1;
    }
    Ok(total)
}

/// Write each cell's brush list into its segment of the index buffer.
fn fill_cells(indices: &mut Vec<u16>, grid: &Vec<u32>, brushes: &Vec<Brush>, active: &Vec<u16>, origin_pt: Point, size: [u32; 3])
    requires
        grid@.len() == cell_total(triple_u32(size)),
        cell_total(triple_u32(size)) <= u32::MAX,
        forall|j: int| 0 <= j < active@.len() ==> #[trigger] active@[j] < brushes@.len(),
        size[0] >= 1,
        size[1] >= 1,
        size[2] >= 1,
        -0x20000000000000000000000000 <= origin_pt.x <= 0x20000000000000000000000000,
        -0x20000000000000000000000000 <= origin_pt.y <= 0x20000000000000000000000000,
        -0x20000000000000000000000000 <= origin_pt.z <= 0x20000000000000000000000000,
        count_prefix(brushes@, active@, point_view(origin_pt), triple_u32(size), cell_total(triple_u32(size)) - 1) <= MAX_CELL_OFFSET,
        old(indices)@.len() == count_prefix(brushes@, active@, point_view(origin_pt), triple_u32(size), cell_total(triple_u32(size))),
        forall|c: int|
            0 <= c < grid@.len() ==> #[trigger] grid@[c] as int == count_prefix(
                brushes@,
                active@,
                point_view(origin_pt),
                triple_u32(size),
                c,
            ) * 256 + cell_count(brushes@, active@, point_view(origin_pt), triple_u32(size), c),
    ensures
        final(indices)@.len() == old(indices)@.len(),
        forall|c: int, j: int|
            0 <= c < grid@.len() && 0 <= j < cell_count(brushes@, active@, point_view(origin_pt), triple_u32(size), c)
                ==> #[trigger] final(indices)@[count_prefix(brushes@, active@, point_view(origin_pt), triple_u32(size), c) + j]
                == #[trigger] cell_members(brushes@, active@, point_view(origin_pt), triple_u32(size), c)[j],
{
    let ghost bs = brushes@;
    let ghost act = active@;
    let ghost origin = point_view(origin_pt);
    let ghost ext = triple_u32(size);
    let ghost count = cell_total(ext);
    let ghost total = count_prefix(bs, act, origin, ext, count);
    let mut current_offset: Vec<u32> = Vec::new();
    current_offset.resize(grid.len(), 0);
    proof {
        assert forall|c: int| 0 <= c < count implies #[trigger] current_offset@[c] == 0u32 by {
            assert(cloned::<u32>(0u32, current_offset@[c]));
        }
        assert forall|c: int| 0 <= c < count implies cell_offset(#[trigger] grid@[c])
            == count_prefix(bs, act, origin, ext, c) && cell_cap(grid@[c]) == cell_count(
            bs,
            act,
            origin,
            ext,
            c,
        ) by {
            lemma_members_bounded(bs, act, origin, ext, c);
            lemma_prefix_monotone(bs, act, origin, ext, c, count - 1);
            lemma_prefix_monotone(bs, act, origin, ext, 0, c);
            lemma_pack(count_prefix(bs, act, origin, ext, c) as u32, cell_count(bs, act, origin, ext, c) as u32);
        }
    }
    let mut k: usize = 0;
    while k < active.len()
        invariant
            0 <= k <= act.len(),
            active@ == act,
            brushes@ == bs,
            forall|j: int| 0 <= j < act.len() ==> #[trigger] act[j] < bs.len(),
            point_view(origin_pt) == origin,
            triple_u32(size) == ext,
            count == cell_total(ext),
            count <= u32::MAX,
            size[0] >= 1,
            size[1] >= 1,
            size[2] >= 1,
            -0x20000000000000000000000000 <= origin_pt.x <= 0x20000000000000000000000000,
            -0x20000000000000000000000000 <= origin_pt.y <= 0x20000000000000000000000000,
            -0x20000000000000000000000000 <= origin_pt.z <= 0x20000000000000000000000000,
            grid@.len() == count,
            current_offset@.len() == count,
            indices@.len() == total,
            total == count_prefix(bs, act, origin, ext, count),
            forall|c: int|
                0 <= c < count ==> cell_offset(#[trigger] grid@[c]) == count_prefix(
                    bs,
                    act,
                    origin,
                    ext,
                    c,
                ) && cell_cap(grid@[c]) == cell_count(bs, act, origin, ext, c),
            forall|c: int|
                0 <= c < count ==> #[trigger] current_offset@[c] as int == cell_count(
                    bs,
                    act.take(k as int),
                    origin,
                    ext,
                    c,
                ),
            forall|c: int, j: int|
                0 <= c < count && 0 <= j < cell_count(bs, act.take(k as int), origin, ext, c)
                    ==> #[trigger] indices@[count_prefix(bs, act, origin, ext, c) + j]
                    == #[trigger] cell_members(bs, act.take(k as int), origin, ext, c)[j],
        decreases act.len() - k,
    {
        let id = active[k];
        let b = brushes[id as usize];
        let ghost cur0 = current_offset@;
        let ghost gi0 = indices@;
        proof {
            assert forall|c: int| 0 <= c < count implies #[trigger] cur0[c] <= cell_cap(grid@[c]) by {
                lemma_members_prefix(bs, act, origin, ext, c, k as int, act.len() as int);
                assert(act.take(act.len() as int) =~= act);
            }
            assert forall|c: int| 0 <= c < count implies cell_offset(#[trigger] grid@[c])
                + cell_cap(grid@[c]) <= gi0.len() by {
                lemma_prefix_monotone(bs, act, origin, ext, c + 1, count as int);
            }
        }
        let ghost ak = act.take(k as int);
        let ghost ak1 = act.take(k + 1);
        let ghost sub = b.op == OP_SUB;
        match World::brush_cells(&b, origin_pt, size) {
            Some((lo, hi)) => {
                fill_brush(&mut current_offset, indices, grid, size, lo, hi, b.op == OP_SUB, id);
                proof {
                    assert forall|c: int| 0 <= c < count implies #[trigger] current_offset@[c] as int
                        == cell_count(bs, ak1, origin, ext, c) by {
                        lemma_fill_matches_count(bs, act, origin, ext, k as int, c);
                    }
                    assert forall|c: int, j: int|
                        0 <= c < count && 0 <= j < cell_count(bs, ak1, origin, ext, c) implies #[trigger] indices@[count_prefix(bs, act, origin, ext, c) + j]
                        == #[trigger] cell_members(bs, ak1, origin, ext, c)[j] by {
                        lemma_fill_matches_count(bs, act, origin, ext, k as int, c);
                        let p = count_prefix(bs, act, origin, ext, c) + j;
                        lemma_prefix_monotone(bs, act, origin, ext, 0, c);
                        lemma_prefix_monotone(bs, act, origin, ext, c + 1, count as int);
                        assert(covers(b, origin, ext, c) == in_box(c, triple_u32(size), triple_u32(lo), triple_u32(hi)));
                        assert(cur0[c] as int == cell_count(bs, ak, origin, ext, c));
                        assert(cell_offset(grid@[c]) == count_prefix(bs, act, origin, ext, c));
                        assert(cell_cap(grid@[c]) == cell_count(bs, act, origin, ext, c));
                        if j < cell_count(bs, ak, origin, ext, c) {
                            assert(gi0[p] == cell_members(bs, ak, origin, ext, c)[j]);
                            if indices@[p] != gi0[p] {
                                let c2 = choose|c2: int|
                                    0 <= c2 < grid@.len() && #[trigger] fills(
                                        cur0[c2] as int,
                                        in_box(c2, triple_u32(size), triple_u32(lo), triple_u32(hi)),
                                        sub,
                                        cell_cap(grid@[c2]),
                                    ) && p == cell_offset(grid@[c2]) + cur0[c2];
                                lemma_fill_matches_count(bs, act, origin, ext, k as int, c2);
                                assert(covers(b, origin, ext, c2) == in_box(c2, triple_u32(size), triple_u32(lo), triple_u32(hi)));
                                assert(cur0[c2] as int == cell_count(bs, ak, origin, ext, c2));
                                assert(cell_offset(grid@[c2]) == count_prefix(bs, act, origin, ext, c2));
                                assert(cell_cap(grid@[c2]) == cell_count(bs, act, origin, ext, c2));
                                if c2 < c {
                                    lemma_segments_disjoint(bs, act, origin, ext, c2, c);
                                } else if c < c2 {
                                    lemma_segments_disjoint(bs, act, origin, ext, c, c2);
                                }
                                assert(false);
                            }
                        } else {
                            assert(fills(cur0[c] as int, in_box(c, triple_u32(size), triple_u32(lo), triple_u32(hi)), sub, cell_cap(grid@[c])));
                        }
                    }
                }
            },
            None => {
                proof {
                    assert forall|c: int| 0 <= c < count implies #[trigger] current_offset@[c] as int
                        == cell_count(bs, ak1, origin, ext, c) by {
                        lemma_fill_matches_count(bs, act, origin, ext, k as int, c);
                    }
                    assert forall|c: int, j: int|
                        0 <= c < count && 0 <= j < cell_count(bs, ak1, origin, ext, c) implies #[trigger] indices@[count_prefix(bs, act, origin, ext, c) + j]
                        == #[trigger] cell_members(bs, ak1, origin, ext, c)[j] by {
                        lemma_fill_matches_count(bs, act, origin, ext, k as int, c);
                    }
                }
            },
        }
        k = k + 1;
    }
    assert(act.take(act.len() as int) =~= act);
}


/// The cleared value a removed brush slot holds.
pub open spec fn cleared_brush() -> Brush {
    Brush {
        pos: Vec3 { x: 0, y: 0, z: 0 },
        kind: KIND_BOX,
        scale: Size3 { x: 0, y: 0, z: 0 },
        material: 0,
        rot: Quat { x: 0, y: 0, z: 0, w: QUAT_ONE },
        op: OP_ADD,
    }
}

/// Slots, free list and id after adding `brush`: the most recently freed slot
/// is reused; otherwise a new slot is appended, unless the world is full
/// (then nothing changes and the id is `SLOT_EMPTY`).
pub open spec fn added(bs: Seq<Brush>, free: Seq<u16>, brush: Brush) -> (Seq<Brush>, Seq<u16>, u16) {
    if free.len() > 0 {
        (bs.update(free.last() as int, brush), free.drop_last(), free.last())
    } else if bs.len() < MAX_BRUSHES {
        (bs.push(brush), free, bs.len() as u16)
    } else {
        (bs, free, SLOT_EMPTY)
    }
}

/// Slots and free list after removing the brush in slot `index`.
pub open spec fn removed(bs: Seq<Brush>, free: Seq<u16>, index: u16) -> (Seq<Brush>, Seq<u16>) {
    (bs.update(index as int, cleared_brush()), free.push(index))
}

/// What a grid rebuild of these slots answers.
pub open spec fn rebuild_result(bs: Seq<Brush>, free: Seq<u16>) -> Result<(), GridError> {
    match grid_error(bs, free) {
        None => Ok(()),
        Some(e) => Err(e),
    }
}

/// Data of a world's uniform buffer: where the grid starts and its size.
#[derive(Clone, Copy, Debug, PartialEq, Eq, Structural)]
pub struct WorldUniforms {
    /// First cell of the grid, in metres.
    pub grid_min: Point,
    pub grid_size_x: u32,
    pub grid_size_y: u32,
    pub grid_size_z: u32,
}

impl World {
    /// An empty world.
    pub fn new() -> (w: World)
        ensures
            w.wf(),
            w.brushes_view().len() == 0,
            w.free_view().len() == 0,
            w.grid_built(),
            w.grid_min == (Point { x: 0, y: 0, z: 0 }),
            w.grid_size == [0u32, 0u32, 0u32],
            w.header@.len() == 0,
            w.comments@ == Map::<u16, Vec<u8>>::empty(),
    {
        World {
            brushes: Vec::with_capacity(1024),
            free_indices: Vec::new(),
            grid: Vec::new(),
            grid_indices: Vec::new(),
            grid_min: Point { x: 0, y: 0, z: 0 },
            grid_size: [0, 0, 0],
            header: Vec::new(),
            comments: HashMap::new(),
        }
    }

    /// Number of brush slots, in use or free.
    pub fn num_slots(&self) -> (n: usize)
        ensures
            n == self.brushes_view().len(),
    {
        self.brushes.len()
    }

    /// Get a copy of the brush with the given id
    pub fn get_brush(&mut self, index: u16) -> (b: Brush)
        requires
            (index as int) < old(self).brushes_view().len(),
        ensures
            b == old(self).brushes_view()[index as int],
            *final(self) == *old(self),
    {
        self.brushes[index as usize]
    }

    /// Remove a brush from the world and rebuild the grid; returns the removed brush.
    pub fn remove_brush(&mut self, index: u16) -> (res: Result<Brush, GridError>)
        requires
            old(self).wf(),
            (index as int) < old(self).brushes_view().len(),
        ensures
            final(self).wf(),
            final(self).brushes_view() == removed(old(self).brushes_view(), old(self).free_view(), index).0,
            final(self).free_view() == removed(old(self).brushes_view(), old(self).free_view(), index).1,
            final(self).header == old(self).header,
            final(self).comments@ == old(self).comments@,
            res == match grid_error(final(self).brushes_view(), final(self).free_view()) {
                None => Ok::<Brush, GridError>(old(self).brushes_view()[index as int]),
                Some(e) => Err(e),
            },
            res is Ok ==> final(self).grid_built(),
            grid_error(old(self).brushes_view(), old(self).free_view()) is None && !old(self).free_view().contains(
                index,
            ) ==> res is Ok,
    {
        proof {
            if grid_error(self.brushes_view(), self.free_view()) is None && !self.free_view().contains(index) {
                law_remove_keeps_grid(self.brushes_view(), self.free_view(), index);
            }
        }
        let brush = self.brushes[index as usize];
        // Nullify the brush data
        self.brushes.set(index as usize, Brush {
            pos: Vec3 { x: 0, y: 0, z: 0 },
            kind: KIND_BOX,
            scale: Size3 { x: 0, y: 0, z: 0 },
            material: 0,
            rot: Quat { x: 0, y: 0, z: 0, w: QUAT_ONE },
            op: OP_ADD,
        });
        self.free_indices.push(index);
        assert forall|j: int| 0 <= j < self.free_view().len() implies #[trigger] self.free_view()[j]
            < self.brushes_view().len() by {
            if j < self.free_view().len() - 1 {
                assert(self.free_view()[j] == old(self).free_view()[j]);
            }
        }
        match self.rebuild_grid() {
            Ok(()) => Ok(brush),
            Err(e) => Err(e),
        }
    }

    /// Add a brush to the world and rebuild the grid; returns its id,
    /// or `SLOT_EMPTY` when every slot is taken.
    pub fn add_brush(&mut self, brush: Brush) -> (res: Result<u16, GridError>)
        requires
            old(self).wf(),
        ensures
            final(self).wf(),
            final(self).brushes_view() == added(old(self).brushes_view(), old(self).free_view(), brush).0,
            final(self).free_view() == added(old(self).brushes_view(), old(self).free_view(), brush).1,
            final(self).header == old(self).header,
            final(self).comments@ == old(self).comments@,
            added(old(self).brushes_view(), old(self).free_view(), brush).2 == SLOT_EMPTY ==> {
                &&& res == Ok::<u16, GridError>(SLOT_EMPTY)
                &&& final(self).grid == old(self).grid
                &&& final(self).grid_indices == old(self).grid_indices
                &&& final(self).grid_min == old(self).grid_min
                &&& final(self).grid_size == old(self).grid_size
            },
            added(old(self).brushes_view(), old(self).free_view(), brush).2 != SLOT_EMPTY ==> {
                &&& res == match grid_error(final(self).brushes_view(), final(self).free_view()) {
                    None => Ok::<u16, GridError>(added(old(self).brushes_view(), old(self).free_view(), brush).2),
                    Some(e) => Err(e),
                }
                &&& res is Ok ==> final(self).grid_built()
            },
    {
        let index = match self.free_indices.pop() {
            Some(free_idx) => {
                self.brushes.set(free_idx as usize, brush);
                free_idx
            },
            None => {
                let idx = self.brushes.len();
                if idx >= MAX_BRUSHES {
                    return Ok(SLOT_EMPTY);
                }
                self.brushes.push(brush);
                idx as u16
            },
        };
        match self.rebuild_grid() {
            Ok(()) => Ok(index),
            Err(e) => Err(e),
        }
    }

    /// The brushes in use with their ids, in increasing id order.
    pub fn active_brushes(&self) -> (r: Vec<(u16, Brush)>)
        requires
            self.wf(),
        ensures
            r@.len() == self.active().len(),
            forall|i: int|
                0 <= i < r@.len() ==> #[trigger] r@[i] == (
                    self.active()[i],
                    self.brushes_view()[self.active()[i] as int],
                ),
    {
        let ghost free = self.free_view();
        let mut out: Vec<(u16, Brush)> = Vec::new();
        let n = self.brushes.len();
        let mut i: usize = 0;
        while i < n
            invariant
                n == self.brushes_view().len(),
                n <= MAX_BRUSHES,
                free == self.free_view(),
                0 <= i <= n,
                out@.len() == active_upto(free, i as int).len(),
                forall|j: int|
                    0 <= j < out@.len() ==> #[trigger] out@[j] == (
                        active_upto(free, i as int)[j],
                        self.brushes_view()[active_upto(free, i as int)[j] as int],
                    ),
            decreases n - i,
        {
            let id = i as u16;
            if !self.is_free(id) {
                out.push((id, self.brushes[i]));
            }
            i = i + 1;
        }
        out
    }

    /// Uniform data describing the grid.
    pub fn uniforms(&self) -> (u: WorldUniforms)
        ensures
            u.grid_min == self.grid_min,
            u.grid_size_x == self.grid_size[0],
            u.grid_size_y == self.grid_size[1],
            u.grid_size_z == self.grid_size[2],
    {
        WorldUniforms {
            grid_min: self.grid_min,
            grid_size_x: self.grid_size[0],
            grid_size_y: self.grid_size[1],
            grid_size_z: self.grid_size[2],
        }
    }

    /// Set the text that precedes the first entry of the map.
    pub fn set_header(&mut self, text: Vec<u8>)
        ensures
            final(self).header == text,
            final(self).brushes_view() == old(self).brushes_view(),
            final(self).free_view() == old(self).free_view(),
            final(self).grid == old(self).grid,
            final(self).grid_indices == old(self).grid_indices,
            final(self).grid_min == old(self).grid_min,
            final(self).grid_size == old(self).grid_size,
            final(self).comments == old(self).comments,
    {
        self.header = text;
    }

    /// Remember the text that precedes the entry of brush `id` in the map.
    pub fn set_comment(&mut self, id: u16, text: Vec<u8>)
        ensures
            final(self).comments@ == old(self).comments@.insert(id, text),
            final(self).header == old(self).header,
            final(self).brushes_view() == old(self).brushes_view(),
            final(self).free_view() == old(self).free_view(),
            final(self).grid == old(self).grid,
            final(self).grid_indices == old(self).grid_indices,
            final(self).grid_min == old(self).grid_min,
            final(self).grid_size == old(self).grid_size,
    {
        broadcast use vstd::std_specs::hash::group_hash_axioms;
        self.comments.insert(id, text);
    }

    /// The text that precedes the entry of brush `id` in the map, if any.
    pub fn comment(&self, id: u16) -> (r: Option<&Vec<u8>>)
        ensures
            match r {
                Some(t) => self.comments@.contains_key(id) && *t == self.comments@[id],
                None => !self.comments@.contains_key(id),
            },
    {
        broadcast use vstd::std_specs::hash::group_hash_axioms;
        self.comments.get(&id)
    }
}


/// A slot is in use exactly when it exists and is not in the free list.
pub proof fn lemma_active_contains(free: Seq<u16>, n: int, i: u16)
    requires
        0 <= n <= MAX_BRUSHES,
    ensures
        active_upto(free, n).contains(i) <==> (i as int) < n && !free.contains(i),
    decreases n,
{
    if n > 0 {
        lemma_active_contains(free, n - 1, i);
        let p = active_upto(free, n - 1);
        if !free.contains((n - 1) as u16) {
            assert(p.push((n - 1) as u16)[p.len() as int] == (n - 1) as u16);
            if p.push((n - 1) as u16).contains(i) && i != (n - 1) as u16 {
                let q = p.push((n - 1) as u16);
                let j = choose|j: int| 0 <= j < q.len() && q[j] == i;
                assert(p[j] == i);
            }
            if p.contains(i) {
                let j = choose|j: int| 0 <= j < p.len() && p[j] == i;
                assert(p.push((n - 1) as u16)[j] == i);
            }
        }
    }
}

/// Law: a brush added to a world whose free list holds no slot twice is
/// stored under the returned id, that id is then in use, the other slots
/// keep their brushes, and a slot other than the id is in use exactly when
/// it was before.
pub proof fn law_add_then_get(bs: Seq<Brush>, free: Seq<u16>, brush: Brush)
    requires
        bs.len() <= MAX_BRUSHES,
        forall|j: int| 0 <= j < free.len() ==> #[trigger] free[j] < bs.len(),
        free.no_duplicates(),
        added(bs, free, brush).2 != SLOT_EMPTY,
    ensures
        ({
            let (nbs, nfree, id) = added(bs, free, brush);
            &&& (id as int) < nbs.len()
            &&& nbs[id as int] == brush
            &&& active_upto(nfree, nbs.len() as int).contains(id)
            &&& forall|j: int| 0 <= j < bs.len() && j != id ==> #[trigger] nbs[j] == bs[j]
            &&& forall|j: u16|
                j != id ==> (active_upto(nfree, nbs.len() as int).contains(j) <==> active_upto(
                    free,
                    bs.len() as int,
                ).contains(j))
        }),
{
    let (nbs, nfree, id) = added(bs, free, brush);
    assert(nbs.len() <= MAX_BRUSHES);
    assert forall|j: u16| j != id implies (active_upto(nfree, nbs.len() as int).contains(j)
        <==> active_upto(free, bs.len() as int).contains(j)) by {
        lemma_active_contains(nfree, nbs.len() as int, j);
        lemma_active_contains(free, bs.len() as int, j);
        if free.len() > 0 {
            assert(free =~= nfree.push(id));
            if nfree.contains(j) {
                let k = choose|k: int| 0 <= k < nfree.len() && nfree[k] == j;
                assert(free[k] == j);
            }
            if free.contains(j) {
                let k = choose|k: int| 0 <= k < free.len() && free[k] == j;
                assert(k != free.len() - 1);
                assert(nfree[k] == j);
            }
        }
    }
    lemma_active_contains(nfree, nbs.len() as int, id);
    if free.len() > 0 {
        if nfree.contains(id) {
            let k = choose|k: int| 0 <= k < nfree.len() && nfree[k] == id;
            assert(free[k] == free[free.len() - 1]);
        }
    } else {
        if nfree.contains(id) {
            let k = choose|k: int| 0 <= k < nfree.len() && nfree[k] == id;
            assert(free[k] < bs.len());
        }
    }
}

/// Law: removing a brush takes its id out of use and leaves every other slot
/// and its use unchanged.
pub proof fn law_remove_deactivates(bs: Seq<Brush>, free: Seq<u16>, index: u16)
    requires
        bs.len() <= MAX_BRUSHES,
        (index as int) < bs.len(),
    ensures
        ({
            let (nbs, nfree) = removed(bs, free, index);
            &&& !active_upto(nfree, nbs.len() as int).contains(index)
            &&& forall|j: int| 0 <= j < bs.len() && j != index ==> #[trigger] nbs[j] == bs[j]
            &&& forall|j: u16|
                j != index ==> (active_upto(nfree, nbs.len() as int).contains(j) <==> active_upto(
                    free,
                    bs.len() as int,
                ).contains(j))
        }),
{
    let (nbs, nfree) = removed(bs, free, index);
    lemma_active_contains(nfree, nbs.len() as int, index);
    assert(nfree[nfree.len() - 1] == index);
    assert forall|j: u16| j != index implies (active_upto(nfree, nbs.len() as int).contains(j)
        <==> active_upto(free, bs.len() as int).contains(j)) by {
        lemma_active_contains(nfree, nbs.len() as int, j);
        lemma_active_contains(free, bs.len() as int, j);
        if nfree.contains(j) {
            let k = choose|k: int| 0 <= k < nfree.len() && nfree[k] == j;
            assert(free[k] == j);
        }
        if free.contains(j) {
            let k = choose|k: int| 0 <= k < free.len() && free[k] == j;
            assert(nfree[k] == j);
        }
    }
}

/// Law: the next brush added after a removal takes the removed slot, and the
/// slots and free list are as before the removal except for that brush.
pub proof fn law_add_after_remove_reuses_slot(bs: Seq<Brush>, free: Seq<u16>, index: u16, brush: Brush)
    requires
        (index as int) < bs.len(),
    ensures
        ({
            let (rbs, rfree) = removed(bs, free, index);
            added(rbs, rfree, brush) == (bs.update(index as int, brush), free, index)
        }),
{
    let (rbs, rfree) = removed(bs, free, index);
    assert(rfree.drop_last() =~= free);
    assert(rbs.update(index as int, brush) =~= bs.update(index as int, brush));
}

} // verus!
