//! Removing a brush never makes the grid fail: the brushes left in use have
//! a grid inside the old one, and no cell of it lists more than the cell of
//! the old grid at the same place.
use vstd::prelude::*;
use vstd::arithmetic::div_mod::lemma_fundamental_div_mod;
use crate::geometry::{Brush, aabb_lo, aabb_hi, lemma_corners_min_le_max};
use crate::world::{
    MAX_BRUSHES, active_upto, cell_members, cell_count, cell_total, cell_index, cell_x, cell_y, cell_z,
    count_prefix, covers, grid_error, grid_extent, grid_origin, removed, world_lo, world_hi, units, cell_lo,
    cell_hi, origin_axis, lemma_cell_index, lemma_cell_coords, lemma_active_valid,
};
use crate::geometry::{coord, min_int, max_int};
use crate::grid_laws::{lemma_active_increasing, lemma_count_prefix_bound};
use crate::world::lemma_prefix_monotone;

verus! {

// ---------------------------------------------------------------------
// The slots in use after a removal
// ---------------------------------------------------------------------

proof fn lemma_active_before(free: Seq<u16>, index: u16, m: int)
    requires
        0 <= m <= index,
    ensures
        active_upto(free.push(index), m) == active_upto(free, m),
    decreases m,
{
    if m > 0 {
        lemma_active_before(free, index, m - 1);
        let j = (m - 1) as u16;
        assert(j != index);
        assert(free.push(index).contains(j) ==> free.contains(j)) by {
            if free.push(index).contains(j) {
                let i = choose|i: int| 0 <= i < free.push(index).len() && free.push(index)[i] == j;
                assert(i < free.len());
                assert(free[i] == j);
            }
        }
        assert(free.contains(j) ==> free.push(index).contains(j)) by {
            if free.contains(j) {
                let i = choose|i: int| 0 <= i < free.len() && free[i] == j;
                assert(free.push(index)[i] == j);
            }
        }
    }
}

/// The slots in use before and after removing `index`: the ones below it,
/// `index` itself (only before), and the same ones above it.
pub open spec fn split_at_index(free: Seq<u16>, index: u16, m: int) -> bool {
    let p = active_upto(free, index as int);
    let now = active_upto(free.push(index), m);
    let q = now.subrange(p.len() as int, now.len() as int);
    &&& p.len() <= now.len()
    &&& now == p + q
    &&& active_upto(free, m) == p.push(index) + q
}

proof fn lemma_active_split(free: Seq<u16>, index: u16, m: int)
    requires
        (index as int) < m <= MAX_BRUSHES,
        !free.contains(index),
    ensures
        split_at_index(free, index, m),
    decreases m,
{
    let p = active_upto(free, index as int);
    lemma_active_before(free, index, index as int);
    assert(free.push(index).contains(index)) by {
        assert(free.push(index)[free.len() as int] == index);
    }
    if m == index + 1 {
        let now = active_upto(free.push(index), m);
        assert(now == p);
        assert(now.subrange(p.len() as int, now.len() as int) =~= Seq::<u16>::empty());
        assert(now =~= p + Seq::<u16>::empty());
        assert(active_upto(free, m) =~= p.push(index) + Seq::<u16>::empty());
    } else {
        lemma_active_split(free, index, m - 1);
        let j = (m - 1) as u16;
        assert(j != index);
        assert(free.push(index).contains(j) <==> free.contains(j)) by {
            if free.push(index).contains(j) {
                let i = choose|i: int| 0 <= i < free.push(index).len() && free.push(index)[i] == j;
                assert(i < free.len());
                assert(free[i] == j);
            }
            if free.contains(j) {
                let i = choose|i: int| 0 <= i < free.len() && free[i] == j;
                assert(free.push(index)[i] == j);
            }
        }
        let now0 = active_upto(free.push(index), m - 1);
        let q0 = now0.subrange(p.len() as int, now0.len() as int);
        let now = active_upto(free.push(index), m);
        let q = now.subrange(p.len() as int, now.len() as int);
        if free.contains(j) {
            assert(now == now0);
        } else {
            assert(now == now0.push(j));
            assert(q =~= q0.push(j));
            assert(now =~= p + q);
            assert(active_upto(free, m) =~= p.push(index) + q);
        }
    }
}

// ---------------------------------------------------------------------
// Lists of a cell with one brush fewer
// ---------------------------------------------------------------------

/// The brushes `s` cover cell `c2` of the second grid exactly when they cover
/// cell `c` of the first, and have the same operation.
pub open spec fn agree(bs: Seq<Brush>, o: (int, int, int), e: (int, int, int), c: int, bs2: Seq<Brush>, o2: (int, int, int), e2: (int, int, int), c2: int, s: Seq<u16>) -> bool {
    forall|i: int|
        0 <= i < s.len() ==> covers(bs2[#[trigger] s[i] as int], o2, e2, c2) == covers(bs[s[i] as int], o, e, c)
            && bs2[s[i] as int].op == bs[s[i] as int].op
}

proof fn lemma_members_agree(bs: Seq<Brush>, o: (int, int, int), e: (int, int, int), c: int, bs2: Seq<Brush>, o2: (int, int, int), e2: (int, int, int), c2: int, s: Seq<u16>)
    requires
        agree(bs, o, e, c, bs2, o2, e2, c2, s),
    ensures
        cell_members(bs2, s, o2, e2, c2).len() == cell_members(bs, s, o, e, c).len(),
    decreases s.len(),
{
    if s.len() > 0 {
        assert(agree(bs, o, e, c, bs2, o2, e2, c2, s.drop_last())) by {
            assert forall|i: int| 0 <= i < s.drop_last().len() implies s.drop_last()[i] == s[i] by {}
        }
        lemma_members_agree(bs, o, e, c, bs2, o2, e2, c2, s.drop_last());
        assert(s[s.len() - 1] == s.last());
    }
}

/// A cell lists no more brushes when one brush is left out of the list order.
proof fn lemma_members_without(bs: Seq<Brush>, o: (int, int, int), e: (int, int, int), c: int, bs2: Seq<Brush>, o2: (int, int, int), e2: (int, int, int), c2: int, p: Seq<u16>, x: u16, q: Seq<u16>)
    requires
        agree(bs, o, e, c, bs2, o2, e2, c2, p),
        agree(bs, o, e, c, bs2, o2, e2, c2, q),
    ensures
        cell_members(bs2, p + q, o2, e2, c2).len() <= cell_members(bs, p.push(x) + q, o, e, c).len(),
    decreases q.len(),
{
    if q.len() == 0 {
        assert(p + q =~= p);
        assert(p.push(x) + q =~= p.push(x));
        lemma_members_agree(bs, o, e, c, bs2, o2, e2, c2, p);
        assert(p.push(x).drop_last() =~= p);
    } else {
        let q0 = q.drop_last();
        assert(agree(bs, o, e, c, bs2, o2, e2, c2, q0)) by {
            assert forall|i: int| 0 <= i < q0.len() implies q0[i] == q[i] by {}
        }
        lemma_members_without(bs, o, e, c, bs2, o2, e2, c2, p, x, q0);
        assert((p + q).drop_last() =~= p + q0);
        assert((p.push(x) + q).drop_last() =~= p.push(x) + q0);
        assert((p + q).last() == q.last());
        assert((p.push(x) + q).last() == q.last());
        assert(q[q.len() - 1] == q.last());
    }
}

// ---------------------------------------------------------------------
// The grid of the brushes left lies inside the old grid
// ---------------------------------------------------------------------

/// The world bounds are bounds of every brush in use, and reached by one.
proof fn lemma_world_bounds(bs: Seq<Brush>, act: Seq<u16>, k: int)
    requires
        act.len() >= 1,
    ensures
        forall|i: int|
            0 <= i < act.len() ==> world_lo(bs, act, k) <= aabb_lo(bs[#[trigger] act[i] as int], k) && world_hi(
                bs,
                act,
                k,
            ) >= aabb_hi(bs[act[i] as int], k),
        exists|i: int| 0 <= i < act.len() && world_lo(bs, act, k) == aabb_lo(bs[#[trigger] act[i] as int], k),
        exists|i: int| 0 <= i < act.len() && world_hi(bs, act, k) == aabb_hi(bs[#[trigger] act[i] as int], k),
    decreases act.len(),
{
    if act.len() > 1 {
        let a0 = act.drop_last();
        lemma_world_bounds(bs, a0, k);
        assert forall|i: int| 0 <= i < a0.len() implies a0[i] == act[i] by {}
        let last = act.len() - 1;
        assert(act[last] == act.last());
        let i = choose|i: int| 0 <= i < a0.len() && world_lo(bs, a0, k) == aabb_lo(bs[#[trigger] a0[i] as int], k);
        let j = choose|i: int| 0 <= i < a0.len() && world_hi(bs, a0, k) == aabb_hi(bs[#[trigger] a0[i] as int], k);
        if world_lo(bs, act, k) == aabb_lo(bs[act[last] as int], k) {
        } else {
            assert(world_lo(bs, act, k) == aabb_lo(bs[act[i] as int], k));
        }
        if world_hi(bs, act, k) == aabb_hi(bs[act[last] as int], k) {
        } else {
            assert(world_hi(bs, act, k) == aabb_hi(bs[act[j] as int], k));
        }
    } else {
        assert(world_lo(bs, act, k) == aabb_lo(bs[act[0] as int], k));
        assert(world_hi(bs, act, k) == aabb_hi(bs[act[0] as int], k));
    }
}

/// Along one axis: the padded grid of the bounds `wl2..wh2` lies inside the
/// one of `wl..wh`, and a box `lo..hi` inside `wl2..wh2` spans the same
/// cells of both, shifted by the difference of the origins.
proof fn lemma_axis_shift(lo: int, hi: int, wl: int, wh: int, wl2: int, wh2: int)
    requires
        wl <= wl2 <= lo <= hi <= wh2 <= wh,
    ensures
        ({
            let u = units();
            let o = (wl - u) / u;
            let o2 = (wl2 - u) / u;
            let e = -((-(wh + u)) / u) - o;
            let e2 = -((-(wh2 + u)) / u) - o2;
            let d = o2 - o;
            &&& 0 <= d
            &&& d + e2 <= e
            &&& e2 >= 1
            &&& max_int(0, (lo - o2 * u) / u) == max_int(0, (lo - o * u) / u) - d
            &&& min_int(e2 - 1, max_int(0, -((-(hi - o2 * u)) / u))) == min_int(
                e - 1,
                max_int(0, -((-(hi - o * u)) / u)),
            ) - d
        }),
{
    let u = units();
    assert(u == 1_000_000);
    let o = (wl - u) / u;
    let o2 = (wl2 - u) / u;
    lemma_fundamental_div_mod(wl - u, u);
    lemma_fundamental_div_mod(wl2 - u, u);
    lemma_fundamental_div_mod(-(wh + u), u);
    lemma_fundamental_div_mod(-(wh2 + u), u);
    lemma_fundamental_div_mod(lo - o * u, u);
    lemma_fundamental_div_mod(lo - o2 * u, u);
    lemma_fundamental_div_mod(-(hi - o * u), u);
    lemma_fundamental_div_mod(-(hi - o2 * u), u);
}

/// Offset of the smaller grid's origin in the larger grid, along axis `k`.
pub open spec fn shift(bs: Seq<Brush>, act: Seq<u16>, bs2: Seq<Brush>, act2: Seq<u16>, k: int) -> int {
    origin_axis(bs2, act2, k) - origin_axis(bs, act, k)
}

/// Cell `c2` of the grid of `act2`, as a cell of the grid of `act`.
pub open spec fn moved_cell(bs: Seq<Brush>, act: Seq<u16>, bs2: Seq<Brush>, act2: Seq<u16>, c2: int) -> int {
    let e2 = grid_extent(bs2, act2);
    cell_index(
        cell_x(c2, e2) + shift(bs, act, bs2, act2, 0),
        cell_y(c2, e2) + shift(bs, act, bs2, act2, 1),
        cell_z(c2, e2) + shift(bs, act, bs2, act2, 2),
        grid_extent(bs, act),
    )
}

/// The bounds of the brushes `act2` lie within those of `act`, and `b` within them.
pub open spec fn nested(bs: Seq<Brush>, act: Seq<u16>, bs2: Seq<Brush>, act2: Seq<u16>, b: Brush, k: int) -> bool {
    world_lo(bs, act, k) <= world_lo(bs2, act2, k) <= aabb_lo(b, k) <= aabb_hi(b, k) <= world_hi(bs2, act2, k)
        <= world_hi(bs, act, k)
}

proof fn lemma_grid_inside(bs: Seq<Brush>, act: Seq<u16>, bs2: Seq<Brush>, act2: Seq<u16>, b: Brush)
    requires
        nested(bs, act, bs2, act2, b, 0),
        nested(bs, act, bs2, act2, b, 1),
        nested(bs, act, bs2, act2, b, 2),
    ensures
        forall|k: int|
            0 <= k < 3 ==> {
                let e = grid_extent(bs, act);
                let e2 = grid_extent(bs2, act2);
                let d = #[trigger] shift(bs, act, bs2, act2, k);
                &&& 0 <= d
                &&& d + coord(e2, k) <= coord(e, k)
                &&& coord(e2, k) >= 1
                &&& cell_lo(b, grid_origin(bs2, act2), k) == cell_lo(b, grid_origin(bs, act), k) - d
                &&& cell_hi(b, grid_origin(bs2, act2), e2, k) == cell_hi(b, grid_origin(bs, act), e, k) - d
            },
{
    assert forall|k: int| 0 <= k < 3 implies {
        let e = grid_extent(bs, act);
        let e2 = grid_extent(bs2, act2);
        let d = #[trigger] shift(bs, act, bs2, act2, k);
        &&& 0 <= d
        &&& d + coord(e2, k) <= coord(e, k)
        &&& coord(e2, k) >= 1
        &&& cell_lo(b, grid_origin(bs2, act2), k) == cell_lo(b, grid_origin(bs, act), k) - d
        &&& cell_hi(b, grid_origin(bs2, act2), e2, k) == cell_hi(b, grid_origin(bs, act), e, k) - d
    } by {
        lemma_axis_shift(
            aabb_lo(b, k),
            aabb_hi(b, k),
            world_lo(bs, act, k),
            world_hi(bs, act, k),
            world_lo(bs2, act2, k),
            world_hi(bs2, act2, k),
        );
    }
}

/// A brush inside both grids covers a cell of the smaller grid exactly when
/// it covers the same place in the larger one.
proof fn lemma_covers_moved(bs: Seq<Brush>, act: Seq<u16>, bs2: Seq<Brush>, act2: Seq<u16>, b: Brush, c2: int)
    requires
        nested(bs, act, bs2, act2, b, 0),
        nested(bs, act, bs2, act2, b, 1),
        nested(bs, act, bs2, act2, b, 2),
        0 <= c2 < cell_total(grid_extent(bs2, act2)),
    ensures
        0 <= moved_cell(bs, act, bs2, act2, c2) < cell_total(grid_extent(bs, act)),
        covers(b, grid_origin(bs2, act2), grid_extent(bs2, act2), c2) == covers(
            b,
            grid_origin(bs, act),
            grid_extent(bs, act),
            moved_cell(bs, act, bs2, act2, c2),
        ),
{
    let e = grid_extent(bs, act);
    let e2 = grid_extent(bs2, act2);
    lemma_grid_inside(bs, act, bs2, act2, b);
    assert(shift(bs, act, bs2, act2, 0) >= 0 && shift(bs, act, bs2, act2, 1) >= 0 && shift(bs, act, bs2, act2, 2) >= 0);
    lemma_cell_coords(c2, e2);
    let x = cell_x(c2, e2) + shift(bs, act, bs2, act2, 0);
    let y = cell_y(c2, e2) + shift(bs, act, bs2, act2, 1);
    let z = cell_z(c2, e2) + shift(bs, act, bs2, act2, 2);
    lemma_cell_index(x, y, z, e);
}

/// Cell indices follow the order y, then z, then x.
proof fn lemma_index_order(x1: int, y1: int, z1: int, x2: int, y2: int, z2: int, e: (int, int, int))
    requires
        0 <= x1 < e.0 && 0 <= x2 < e.0,
        0 <= y1 < e.1 && 0 <= y2 < e.1,
        0 <= z1 < e.2 && 0 <= z2 < e.2,
        y1 < y2 || (y1 == y2 && z1 < z2) || (y1 == y2 && z1 == z2 && x1 < x2),
    ensures
        cell_index(x1, y1, z1, e) < cell_index(x2, y2, z2, e),
{
    if y1 < y2 {
        assert((y1 * e.2 + z1) < (y2 * e.2 + z2)) by (nonlinear_arith)
            requires
                y1 < y2,
                0 <= z1 < e.2,
                0 <= z2,
        ;
    }
    let r1 = y1 * e.2 + z1;
    let r2 = y2 * e.2 + z2;
    assert(r1 <= r2);
    assert(r1 * e.0 + x1 < r2 * e.0 + x2) by (nonlinear_arith)
        requires
            r1 <= r2,
            r1 < r2 || x1 < x2,
            0 <= x1 < e.0,
            0 <= x2,
    ;
}

/// Consecutive cells of the smaller grid stay in order in the larger one.
proof fn lemma_moved_increasing(bs: Seq<Brush>, act: Seq<u16>, bs2: Seq<Brush>, act2: Seq<u16>, b: Brush, c2: int)
    requires
        nested(bs, act, bs2, act2, b, 0),
        nested(bs, act, bs2, act2, b, 1),
        nested(bs, act, bs2, act2, b, 2),
        0 <= c2,
        c2 + 1 < cell_total(grid_extent(bs2, act2)),
    ensures
        moved_cell(bs, act, bs2, act2, c2) < moved_cell(bs, act, bs2, act2, c2 + 1),
{
    let e = grid_extent(bs, act);
    let e2 = grid_extent(bs2, act2);
    lemma_grid_inside(bs, act, bs2, act2, b);
    assert(shift(bs, act, bs2, act2, 0) >= 0 && shift(bs, act, bs2, act2, 1) >= 0 && shift(bs, act, bs2, act2, 2) >= 0);
    lemma_cell_coords(c2, e2);
    lemma_cell_coords(c2 + 1, e2);
    let (x1, y1, z1) = (cell_x(c2, e2), cell_y(c2, e2), cell_z(c2, e2));
    let (x2, y2, z2) = (cell_x(c2 + 1, e2), cell_y(c2 + 1, e2), cell_z(c2 + 1, e2));
    // the coordinates of the two cells are in order: otherwise their indices would be too
    if !(y1 < y2 || (y1 == y2 && z1 < z2) || (y1 == y2 && z1 == z2 && x1 < x2)) {
        if y1 == y2 && z1 == z2 && x1 == x2 {
        } else {
            lemma_index_order(x2, y2, z2, x1, y1, z1, e2);
        }
    }
    let (d0, d1, d2) = (shift(bs, act, bs2, act2, 0), shift(bs, act, bs2, act2, 1), shift(bs, act, bs2, act2, 2));
    lemma_index_order(x1 + d0, y1 + d1, z1 + d2, x2 + d0, y2 + d1, z2 + d2, e);
}

/// Sums of counts over the smaller grid are at most those over the larger
/// one, cell by cell at the places `phi` gives.
proof fn lemma_prefix_under(
    bs: Seq<Brush>,
    act: Seq<u16>,
    o: (int, int, int),
    e: (int, int, int),
    bs2: Seq<Brush>,
    act2: Seq<u16>,
    o2: (int, int, int),
    e2: (int, int, int),
    phi: spec_fn(int) -> int,
    m: int,
)
    requires
        1 <= m,
        forall|c2: int| 0 <= c2 < m ==> 0 <= #[trigger] phi(c2),
        forall|c2: int|
            0 <= c2 < m ==> cell_members(bs2, act2, o2, e2, c2).len() <= cell_members(
                bs,
                act,
                o,
                e,
                #[trigger] phi(c2),
            ).len(),
        forall|c2: int| 0 <= c2 && c2 + 1 < m ==> #[trigger] phi(c2) < phi(c2 + 1),
    ensures
        count_prefix(bs2, act2, o2, e2, m) <= count_prefix(bs, act, o, e, phi(m - 1) + 1),
    decreases m,
{
    let f = phi(m - 1);
    assert(0 <= f);
    lemma_count_prefix_bound(bs, act, o, e, f);
    assert(cell_members(bs2, act2, o2, e2, m - 1).len() <= cell_members(bs, act, o, e, f).len());
    assert(count_prefix(bs2, act2, o2, e2, m) == count_prefix(bs2, act2, o2, e2, m - 1) + cell_count(bs2, act2, o2, e2, m - 1));
    assert(count_prefix(bs, act, o, e, f + 1) == count_prefix(bs, act, o, e, f) + cell_count(bs, act, o, e, f));
    if m > 1 {
        lemma_prefix_under(bs, act, o, e, bs2, act2, o2, e2, phi, m - 1);
        let g = phi(m - 2);
        assert(g < f);
        lemma_prefix_monotone(bs, act, o, e, g + 1, f);
    }
}

// ---------------------------------------------------------------------
// The law
// ---------------------------------------------------------------------

/// After removing `index`, each slot left in use is the slot at the same
/// place in the old list, or at the next place after `index`'s.
pub(crate) proof fn lemma_left_in_use(free: Seq<u16>, index: u16, n: int)
    requires
        (index as int) < n <= MAX_BRUSHES,
        !free.contains(index),
    ensures
        ({
            let act = active_upto(free, n);
            let act2 = active_upto(free.push(index), n);
            let pl = active_upto(free, index as int).len() as int;
            &&& act2.len() + 1 == act.len()
            &&& pl < act.len() && act[pl] == index
            &&& forall|i: int|
                0 <= i < act2.len() ==> #[trigger] act2[i] == act[if i < pl {
                    i
                } else {
                    i + 1
                }] && act2[i] != index
        }),
{
    lemma_active_split(free, index, n);
    lemma_active_increasing(free, n);
    let act = active_upto(free, n);
    let act2 = active_upto(free.push(index), n);
    let p = active_upto(free, index as int);
    let pl = p.len() as int;
    let q = act2.subrange(pl, act2.len() as int);
    assert(act == p.push(index) + q);
    assert(act[pl] == index);
    assert forall|i: int| 0 <= i < act2.len() implies #[trigger] act2[i] == act[if i < pl {
        i
    } else {
        i + 1
    }] && act2[i] != index by {
        if i < pl {
            assert(act2[i] == p[i]);
            assert(act[i] == p[i]);
            assert(act[i] < act[pl]);
        } else {
            assert(act2[i] == q[i - pl]);
            assert(act[i + 1] == q[i - pl]);
            assert(act[pl] < act[i + 1]);
        }
    }
}

/// Law: removing a brush in use from a world whose grid builds leaves a
/// world whose grid builds too: the brushes left have bounds inside the old
/// ones, so their grid is no larger, and no cell of it lists more brushes
/// than the old cell at the same place.
#[verifier::rlimit(80)]
pub proof fn law_remove_keeps_grid(bs: Seq<Brush>, free: Seq<u16>, index: u16)
    requires
        bs.len() <= MAX_BRUSHES,
        (index as int) < bs.len(),
        !free.contains(index),
        grid_error(bs, free) is None,
    ensures
        grid_error(removed(bs, free, index).0, removed(bs, free, index).1) is None,
{
    let n = bs.len() as int;
    let (bs2, free2) = removed(bs, free, index);
    let act = active_upto(free, n);
    let act2 = active_upto(free2, n);
    lemma_left_in_use(free, index, n);
    if act2.len() > 0 {
        let pl = active_upto(free, index as int).len() as int;
        let p = active_upto(free, index as int);
        lemma_active_split(free, index, n);
        let q = act2.subrange(pl, act2.len() as int);
        let o = grid_origin(bs, act);
        let e = grid_extent(bs, act);
        let o2 = grid_origin(bs2, act2);
        let e2 = grid_extent(bs2, act2);
        // The brushes left are unchanged and lie inside both grids' bounds.
        lemma_active_valid(free2, n);
        lemma_active_valid(free, n);
        assert forall|i: int| 0 <= i < act2.len() implies bs2[#[trigger] act2[i] as int] == bs[act2[i] as int] by {
            assert(act2[i] != index);
            assert((act2[i] as int) < n);
        }
        assert forall|i: int, k: int| 0 <= i < act2.len() && 0 <= k < 3 implies #[trigger] nested(bs, act, bs2, act2, bs[act2[i] as int], k) by {
            lemma_world_bounds(bs, act, k);
            lemma_world_bounds(bs2, act2, k);
            lemma_corners_min_le_max(bs[act2[i] as int], 8, k);
            let j = choose|j: int| 0 <= j < act2.len() && world_lo(bs2, act2, k) == aabb_lo(bs2[#[trigger] act2[j] as int], k);
            let h = choose|j: int| 0 <= j < act2.len() && world_hi(bs2, act2, k) == aabb_hi(bs2[#[trigger] act2[j] as int], k);
            assert(act2[j] == act[if j < pl { j } else { j + 1 }]);
            assert(act2[h] == act[if h < pl { h } else { h + 1 }]);
            assert(bs2[act2[j] as int] == bs[act2[j] as int]);
            assert(bs2[act2[h] as int] == bs[act2[h] as int]);
        }
        let b0 = bs[act2[0] as int];
        assert(nested(bs, act, bs2, act2, b0, 0) && nested(bs, act, bs2, act2, b0, 1) && nested(bs, act, bs2, act2, b0, 2));
        lemma_grid_inside(bs, act, bs2, act2, b0);
        assert(shift(bs, act, bs2, act2, 0) >= 0 && shift(bs, act, bs2, act2, 1) >= 0 && shift(bs, act, bs2, act2, 2) >= 0);
        // No more cells than before.
        assert(cell_total(e2) <= cell_total(e)) by (nonlinear_arith)
            requires
                1 <= e2.0 <= e.0,
                1 <= e2.1 <= e.1,
                1 <= e2.2 <= e.2,
        ;
        let t2 = cell_total(e2);
        let t = cell_total(e);
        assert(t2 >= 1) by (nonlinear_arith)
            requires
                t2 == e2.0 * e2.1 * e2.2,
                1 <= e2.0,
                1 <= e2.1,
                1 <= e2.2,
        ;
        let phi = |c2: int| moved_cell(bs, act, bs2, act2, c2);
        assert forall|c2: int| 0 <= c2 < t2 implies 0 <= #[trigger] phi(c2) < t && cell_members(bs2, act2, o2, e2, c2).len()
            <= cell_members(bs, act, o, e, phi(c2)).len() by {
            lemma_covers_moved(bs, act, bs2, act2, b0, c2);
            assert(agree(bs, o, e, phi(c2), bs2, o2, e2, c2, p)) by {
                assert forall|i: int| 0 <= i < p.len() implies covers(bs2[#[trigger] p[i] as int], o2, e2, c2) == covers(
                    bs[p[i] as int],
                    o,
                    e,
                    phi(c2),
                ) && bs2[p[i] as int].op == bs[p[i] as int].op by {
                    assert(p[i] == act2[i]);
                    let b = bs[act2[i] as int];
                    assert(nested(bs, act, bs2, act2, b, 0) && nested(bs, act, bs2, act2, b, 1) && nested(bs, act, bs2, act2, b, 2));
                    lemma_covers_moved(bs, act, bs2, act2, b, c2);
                }
            }
            assert(agree(bs, o, e, phi(c2), bs2, o2, e2, c2, q)) by {
                assert forall|i: int| 0 <= i < q.len() implies covers(bs2[#[trigger] q[i] as int], o2, e2, c2) == covers(
                    bs[q[i] as int],
                    o,
                    e,
                    phi(c2),
                ) && bs2[q[i] as int].op == bs[q[i] as int].op by {
                    assert(q[i] == act2[pl + i]);
                    let b = bs[act2[pl + i] as int];
                    assert(nested(bs, act, bs2, act2, b, 0) && nested(bs, act, bs2, act2, b, 1) && nested(bs, act, bs2, act2, b, 2));
                    lemma_covers_moved(bs, act, bs2, act2, b, c2);
                }
            }
            lemma_members_without(bs, o, e, phi(c2), bs2, o2, e2, c2, p, index, q);
        }
        assert forall|c2: int| 0 <= c2 && c2 + 1 < t2 implies #[trigger] phi(c2) < phi(c2 + 1) by {
            lemma_moved_increasing(bs, act, bs2, act2, b0, c2);
        }
        // Hence no more entries before the last cell than before.
        lemma_count_prefix_bound(bs2, act2, o2, e2, 0);
        if t2 >= 2 {
            lemma_prefix_under(bs, act, o, e, bs2, act2, o2, e2, phi, t2 - 1);
            assert(phi(t2 - 2) < phi(t2 - 1));
            lemma_prefix_monotone(bs, act, o, e, phi(t2 - 2) + 1, t - 1);
        }
    }
}

// ---------------------------------------------------------------------
// The grid depends only on where brushes are and what they do
// ---------------------------------------------------------------------

/// Two brushes with the same place, size, rotation and operation (they may
/// differ in shape and material).
pub open spec fn same_shape(a: Brush, b: Brush) -> bool {
    a.pos == b.pos && a.scale == b.scale && a.rot == b.rot && a.op == b.op
}

proof fn lemma_same_box(a: Brush, b: Brush, n: nat, k: int)
    requires
        same_shape(a, b),
    ensures
        crate::geometry::corners_min(a, n, k) == crate::geometry::corners_min(b, n, k),
        crate::geometry::corners_max(a, n, k) == crate::geometry::corners_max(b, n, k),
    decreases n,
{
    assert(crate::geometry::corner(a, 0) == crate::geometry::corner(b, 0));
    if n > 1 {
        lemma_same_box(a, b, (n - 1) as nat, k);
        assert(crate::geometry::corner(a, n - 1) == crate::geometry::corner(b, n - 1));
    }
}

/// Slot lists where each slot holds a brush of the same shape.
pub open spec fn same_shapes(bs: Seq<Brush>, bs2: Seq<Brush>) -> bool {
    bs.len() == bs2.len() && forall|i: int| 0 <= i < bs.len() ==> same_shape(#[trigger] bs[i], bs2[i])
}

proof fn lemma_same_world_bounds(bs: Seq<Brush>, bs2: Seq<Brush>, act: Seq<u16>, k: int)
    requires
        act.len() >= 1,
        same_shapes(bs, bs2),
        forall|i: int| 0 <= i < act.len() ==> (#[trigger] act[i] as int) < bs.len(),
    ensures
        world_lo(bs, act, k) == world_lo(bs2, act, k),
        world_hi(bs, act, k) == world_hi(bs2, act, k),
    decreases act.len(),
{
    if act.len() > 0 {
        let i = act.last() as int;
        assert(act[act.len() - 1] == act.last());
        assert(same_shape(bs[i], bs2[i]));
        lemma_same_box(bs[i], bs2[i], 8, k);
        assert(act[0] == act[0]);
        lemma_same_box(bs[act[0] as int], bs2[act[0] as int], 8, k);
        if act.len() > 1 {
            assert forall|j: int| 0 <= j < act.drop_last().len() implies (#[trigger] act.drop_last()[j] as int) < bs.len() by {
                assert(act.drop_last()[j] == act[j]);
            }
            lemma_same_world_bounds(bs, bs2, act.drop_last(), k);
        }
    }
}

proof fn lemma_same_members(bs: Seq<Brush>, bs2: Seq<Brush>, act: Seq<u16>, o: (int, int, int), e: (int, int, int), c: int)
    requires
        same_shapes(bs, bs2),
        forall|i: int| 0 <= i < act.len() ==> (#[trigger] act[i] as int) < bs.len(),
    ensures
        cell_members(bs, act, o, e, c) == cell_members(bs2, act, o, e, c),
    decreases act.len(),
{
    if act.len() > 0 {
        let i = act.last() as int;
        assert(act[act.len() - 1] == act.last());
        assert(same_shape(bs[i], bs2[i]));
        lemma_same_box(bs[i], bs2[i], 8, 0);
        lemma_same_box(bs[i], bs2[i], 8, 1);
        lemma_same_box(bs[i], bs2[i], 8, 2);
        assert forall|j: int| 0 <= j < act.drop_last().len() implies (#[trigger] act.drop_last()[j] as int) < bs.len() by {
            assert(act.drop_last()[j] == act[j]);
        }
        lemma_same_members(bs, bs2, act.drop_last(), o, e, c);
        assert(covers(bs[i], o, e, c) == covers(bs2[i], o, e, c));
    }
}

proof fn lemma_same_prefix(bs: Seq<Brush>, bs2: Seq<Brush>, act: Seq<u16>, o: (int, int, int), e: (int, int, int), n: int)
    requires
        same_shapes(bs, bs2),
        forall|i: int| 0 <= i < act.len() ==> (#[trigger] act[i] as int) < bs.len(),
    ensures
        count_prefix(bs, act, o, e, n) == count_prefix(bs2, act, o, e, n),
    decreases n,
{
    if n > 0 {
        lemma_same_prefix(bs, bs2, act, o, e, n - 1);
        lemma_same_members(bs, bs2, act, o, e, n - 1);
    }
}

/// Law: the grid a set of slots builds, or the error it meets, depends only
/// on the place, size, rotation and operation of the brushes, not on their
/// shapes or materials.
pub proof fn law_grid_ignores_kind_and_material(bs: Seq<Brush>, bs2: Seq<Brush>, free: Seq<u16>)
    requires
        bs.len() <= MAX_BRUSHES,
        same_shapes(bs, bs2),
    ensures
        grid_error(bs, free) == grid_error(bs2, free),
{
    let n = bs.len() as int;
    let act = active_upto(free, n);
    lemma_active_valid(free, n);
    assert forall|i: int| 0 <= i < act.len() implies (#[trigger] act[i] as int) < bs.len() by {}
    if act.len() > 0 {
        lemma_same_world_bounds(bs, bs2, act, 0);
        lemma_same_world_bounds(bs, bs2, act, 1);
        lemma_same_world_bounds(bs, bs2, act, 2);
        let o = grid_origin(bs, act);
        let e = grid_extent(bs, act);
        assert(o == grid_origin(bs2, act));
        assert(e == grid_extent(bs2, act));
        lemma_same_prefix(bs, bs2, act, o, e, cell_total(e) - 1);
    }
}

} // verus!
