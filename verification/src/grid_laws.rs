//! What a built grid looks like from outside: how the packed cells index
//! the index buffer, and which brushes each cell lists.
use vstd::prelude::*;
use vstd::arithmetic::div_mod::lemma_fundamental_div_mod_converse;
use crate::geometry::{Brush, OP_SUB};
use crate::world::{
    World, MAX_BRUSHES, MAX_CELL_BRUSHES, active_upto, cell_count, cell_members, cell_total,
    count_prefix, covers, grid_extent, grid_origin, lemma_members_bounded, triple_u32, lemma_active_valid,
    added, removed, law_add_after_remove_reuses_slot, grid_error,
};
use crate::removal::{law_remove_keeps_grid, lemma_left_in_use};
use crate::geometry::point_view;

verus! {

// ---------------------------------------------------------------------
// Layout of the packed cells
// ---------------------------------------------------------------------

/// Sum of the counts (low bytes) of the packed cells before cell `c`.
pub open spec fn counts_before(g: Seq<u32>, c: int) -> int
    decreases c,
{
    if c <= 0 {
        0
    } else {
        counts_before(g, c - 1) + (g[c - 1] & 0xFF) as int
    }
}

/// The brush ids that cell `c` lists: its count of entries from its offset.
pub open spec fn cell_list(w: World, c: int) -> Seq<u16> {
    let v = w.grid@[c];
    w.grid_indices@.subrange((v >> 8) as int, (v >> 8) as int + (v & 0xFF) as int)
}

proof fn lemma_unpack(v: u32, p: int, m: int)
    requires
        v as int == p * 256 + m,
        0 <= m < 256,
        0 <= p,
    ensures
        (v >> 8) as int == p,
        (v & 0xFF) as int == m,
{
    assert(v >> 8 == v / 256 && v & 0xFF == v % 256) by (bit_vector);
    lemma_fundamental_div_mod_converse(v as int, 256, p, m);
}

proof fn lemma_count_prefix_nonneg(w: World, c: int)
    ensures
        count_prefix(
            w.brushes_view(),
            w.active(),
            grid_origin(w.brushes_view(), w.active()),
            grid_extent(w.brushes_view(), w.active()),
            c,
        ) >= 0,
    decreases c,
{
    if c > 0 {
        lemma_count_prefix_nonneg(w, c - 1);
    }
}

/// The cells of a built grid unpack into their offsets and counts.
proof fn lemma_cells_unpack(w: World, c: int)
    requires
        w.grid_built(),
        w.active().len() > 0,
        0 <= c < w.grid@.len(),
    ensures
        ({
            let bs = w.brushes_view();
            let act = w.active();
            let origin = grid_origin(bs, act);
            let ext = grid_extent(bs, act);
            &&& (w.grid@[c] >> 8) as int == count_prefix(bs, act, origin, ext, c)
            &&& (w.grid@[c] & 0xFF) as int == cell_count(bs, act, origin, ext, c)
        }),
{
    let bs = w.brushes_view();
    let act = w.active();
    let origin = grid_origin(bs, act);
    let ext = grid_extent(bs, act);
    lemma_members_bounded(bs, act, origin, ext, c);
    lemma_count_prefix_nonneg(w, c);
    lemma_unpack(w.grid@[c], count_prefix(bs, act, origin, ext, c), cell_count(bs, act, origin, ext, c));
}

proof fn lemma_counts_before(w: World, c: int)
    requires
        w.grid_built(),
        w.active().len() > 0,
        0 <= c <= w.grid@.len(),
    ensures
        counts_before(w.grid@, c) == count_prefix(
            w.brushes_view(),
            w.active(),
            grid_origin(w.brushes_view(), w.active()),
            grid_extent(w.brushes_view(), w.active()),
            c,
        ),
    decreases c,
{
    if c > 0 {
        lemma_counts_before(w, c - 1);
        lemma_cells_unpack(w, c - 1);
    }
}

/// Law: in a built grid of a world with brushes in use, there is one packed
/// cell per grid cell; the offset of each cell (its bits above the low
/// byte) is the sum of the counts (low bytes) of the cells before it; and
/// the index buffer holds all counted entries, padded with one 0 to an even
/// length.
pub proof fn law_grid_layout(w: World)
    requires
        w.grid_built(),
        w.active().len() > 0,
    ensures
        w.grid@.len() == w.grid_size[0] as int * w.grid_size[1] as int * w.grid_size[2] as int,
        forall|c: int| 0 <= c < w.grid@.len() ==> (#[trigger] w.grid@[c] >> 8) as int == counts_before(w.grid@, c),
        ({
            let t = counts_before(w.grid@, w.grid@.len() as int);
            &&& w.grid_indices@.len() == t + t % 2
            &&& t % 2 == 1 ==> w.grid_indices@[t] == 0
        }),
{
    let bs = w.brushes_view();
    let act = w.active();
    assert(triple_u32(w.grid_size) == grid_extent(bs, act));
    assert forall|c: int| 0 <= c < w.grid@.len() implies (#[trigger] w.grid@[c] >> 8) as int == counts_before(
        w.grid@,
        c,
    ) by {
        lemma_cells_unpack(w, c);
        lemma_counts_before(w, c);
    }
    lemma_counts_before(w, w.grid@.len() as int);
}

// ---------------------------------------------------------------------
// What each cell lists
// ---------------------------------------------------------------------

/// The ids rise strictly along the sequence.
pub open spec fn increasing(s: Seq<u16>) -> bool {
    forall|i: int, j: int| 0 <= i < j < s.len() ==> s[i] < s[j]
}

/// How many ids of `l` are smaller than `id`.
pub open spec fn count_below(l: Seq<u16>, id: u16) -> int
    decreases l.len(),
{
    if l.len() == 0 {
        0
    } else {
        count_below(l.drop_last(), id) + if l.last() < id {
            1int
        } else {
            0
        }
    }
}

pub proof fn lemma_active_increasing(free: Seq<u16>, n: int)
    requires
        0 <= n <= MAX_BRUSHES,
    ensures
        increasing(active_upto(free, n)),
    decreases n,
{
    if n > 0 {
        lemma_active_increasing(free, n - 1);
        lemma_active_valid(free, n - 1);
    }
}

proof fn lemma_count_below_all(l: Seq<u16>, id: u16)
    requires
        forall|j: int| 0 <= j < l.len() ==> #[trigger] l[j] < id,
    ensures
        count_below(l, id) == l.len(),
    decreases l.len(),
{
    if l.len() > 0 {
        lemma_count_below_all(l.drop_last(), id);
    }
}

/// The lists of a cell over the first `n` brushes in use: rising ids of
/// brushes in use that cover the cell, none above the `n`-th id.
proof fn lemma_members_basic(bs: Seq<Brush>, act: Seq<u16>, origin: (int, int, int), ext: (int, int, int), c: int, n: int)
    requires
        increasing(act),
        0 <= n <= act.len(),
    ensures
        ({
            let m = cell_members(bs, act.take(n), origin, ext, c);
            &&& increasing(m)
            &&& forall|j: int|
                0 <= j < m.len() ==> act.contains(#[trigger] m[j]) && covers(bs[m[j] as int], origin, ext, c)
                    && (n > 0 ==> m[j] <= act[n - 1])
        }),
    decreases n,
{
    if n > 0 {
        lemma_members_basic(bs, act, origin, ext, c, n - 1);
        assert(act.take(n).drop_last() =~= act.take(n - 1));
        assert(act.take(n).last() == act[n - 1]);
        let m = cell_members(bs, act.take(n), origin, ext, c);
        let p = cell_members(bs, act.take(n - 1), origin, ext, c);
        assert forall|j: int| 0 <= j < m.len() implies act.contains(#[trigger] m[j]) && covers(
            bs[m[j] as int],
            origin,
            ext,
            c,
        ) && m[j] <= act[n - 1] by {
            if j < p.len() {
                assert(m[j] == p[j]);
                if n > 1 {
                    assert(act[n - 2] < act[n - 1]);
                }
            } else {
                assert(m[j] == act[n - 1]);
            }
        }
        if n > 1 {
            assert(act[n - 2] < act[n - 1]);
        }
    }
}

/// How the list of brush `act[k]` in a cell is decided: the entries listed
/// before it are exactly those with smaller ids, and it is listed when
/// `fills` held as it came.
proof fn lemma_members_count(bs: Seq<Brush>, act: Seq<u16>, origin: (int, int, int), ext: (int, int, int), c: int, k: int, n: int)
    requires
        increasing(act),
        0 <= k < act.len(),
        k <= n <= act.len(),
    ensures
        count_below(cell_members(bs, act.take(n), origin, ext, c), act[k]) == cell_members(
            bs,
            act.take(k),
            origin,
            ext,
            c,
        ).len(),
        n > k ==> (cell_members(bs, act.take(n), origin, ext, c).contains(act[k]) <==> cell_members(
            bs,
            act.take(k + 1),
            origin,
            ext,
            c,
        ).len() > cell_members(bs, act.take(k), origin, ext, c).len()),
    decreases n - k,
{
    let mk = cell_members(bs, act.take(k), origin, ext, c);
    lemma_members_basic(bs, act, origin, ext, c, k);
    if n == k {
        assert forall|j: int| 0 <= j < mk.len() implies #[trigger] mk[j] < act[k] by {
            if k > 0 {
                assert(act[k - 1] < act[k]);
            }
        }
        lemma_count_below_all(mk, act[k]);
    } else {
        lemma_members_count(bs, act, origin, ext, c, k, n - 1);
        assert(act.take(n).drop_last() =~= act.take(n - 1));
        assert(act.take(n).last() == act[n - 1]);
        let m = cell_members(bs, act.take(n), origin, ext, c);
        let p = cell_members(bs, act.take(n - 1), origin, ext, c);
        if n - 1 > k {
            assert(act[k] < act[n - 1]);
        }
        if m.len() > p.len() {
            assert(m =~= p.push(act[n - 1]));
            assert(m.drop_last() =~= p);
            if n - 1 > k {
                assert(m.contains(act[k]) ==> p.contains(act[k])) by {
                    if m.contains(act[k]) {
                        let j = choose|j: int| 0 <= j < m.len() && m[j] == act[k];
                        assert(j < p.len());
                        assert(p[j] == act[k]);
                    }
                }
                assert(p.contains(act[k]) ==> m.contains(act[k])) by {
                    if p.contains(act[k]) {
                        let j = choose|j: int| 0 <= j < p.len() && p[j] == act[k];
                        assert(m[j] == act[k]);
                    }
                }
            } else {
                assert(m[p.len() as int] == act[k]);
            }
        } else {
            assert(m == p);
            if n - 1 == k {
                assert(p == mk);
                assert forall|j: int| 0 <= j < mk.len() implies #[trigger] mk[j] != act[k] by {
                    if k > 0 {
                        assert(act[k - 1] < act[k]);
                    }
                }
            }
        }
    }
}

/// Law: the list of a cell in a built grid is the cell's entry of the index
/// buffer. Its ids rise strictly; each is a brush in use whose box covers
/// the cell; and a brush in use is listed exactly when it covers the cell,
/// fewer than 255 smaller ids are listed, and, for a subtracting brush, at
/// least one smaller id is listed (so a cell that only subtracting brushes
/// cover lists nothing).
pub proof fn law_cell_lists(w: World, c: int)
    requires
        w.wf(),
        w.grid_built(),
        w.active().len() > 0,
        0 <= c < w.grid@.len(),
    ensures
        ({
            let bs = w.brushes_view();
            let act = w.active();
            let origin = grid_origin(bs, act);
            let ext = grid_extent(bs, act);
            let l = cell_list(w, c);
            &&& l == cell_members(bs, act, origin, ext, c)
            &&& increasing(l)
            &&& forall|j: int|
                0 <= j < l.len() ==> act.contains(#[trigger] l[j]) && covers(bs[l[j] as int], origin, ext, c)
            &&& forall|k: int|
                0 <= k < act.len() ==> (l.contains(#[trigger] act[k]) <==> {
                    &&& covers(bs[act[k] as int], origin, ext, c)
                    &&& (bs[act[k] as int].op != OP_SUB || count_below(l, act[k]) > 0)
                    &&& count_below(l, act[k]) < MAX_CELL_BRUSHES
                })
        }),
{
    let bs = w.brushes_view();
    let act = w.active();
    let origin = grid_origin(bs, act);
    let ext = grid_extent(bs, act);
    let members = cell_members(bs, act, origin, ext, c);
    let count = cell_total(ext);
    lemma_cells_unpack(w, c);
    let off = count_prefix(bs, act, origin, ext, c);
    // the cell's entries lie inside the index buffer
    lemma_count_prefix_le(w, c + 1, count);
    let l = cell_list(w, c);
    assert(l.len() == members.len());
    assert forall|j: int| 0 <= j < l.len() implies l[j] == members[j] by {
        assert(w.grid_indices@[count_prefix(bs, act, origin, ext, c) + j] == cell_members(bs, act, origin, ext, c)[j]);
    }
    assert(l =~= members);
    lemma_active_increasing(w.free_view(), w.brushes_view().len() as int);
    assert(act.take(act.len() as int) =~= act);
    lemma_members_basic(bs, act, origin, ext, c, act.len() as int);
    assert forall|k: int| 0 <= k < act.len() implies (l.contains(#[trigger] act[k]) <==> {
        &&& covers(bs[act[k] as int], origin, ext, c)
        &&& (bs[act[k] as int].op != OP_SUB || count_below(l, act[k]) > 0)
        &&& count_below(l, act[k]) < MAX_CELL_BRUSHES
    }) by {
        lemma_members_count(bs, act, origin, ext, c, k, act.len() as int);
        assert(act.take(k + 1).drop_last() =~= act.take(k));
        assert(act.take(k + 1).last() == act[k]);
    }
}

proof fn lemma_count_prefix_le(w: World, a: int, b: int)
    requires
        0 <= a <= b,
    ensures
        count_prefix(
            w.brushes_view(),
            w.active(),
            grid_origin(w.brushes_view(), w.active()),
            grid_extent(w.brushes_view(), w.active()),
            a,
        ) <= count_prefix(
            w.brushes_view(),
            w.active(),
            grid_origin(w.brushes_view(), w.active()),
            grid_extent(w.brushes_view(), w.active()),
            b,
        ),
    decreases b - a,
{
    if a < b {
        lemma_count_prefix_le(w, a, b - 1);
        let bs = w.brushes_view();
        let act = w.active();
        lemma_members_bounded(bs, act, grid_origin(bs, act), grid_extent(bs, act), b - 1);
    }
}

// ---------------------------------------------------------------------
// The grid is a function of the brushes in use
// ---------------------------------------------------------------------

/// Every position before the end of the first `n` cells' entries lies in
/// the entries of one of those cells.
proof fn lemma_position_in_cell(bs: Seq<Brush>, act: Seq<u16>, origin: (int, int, int), ext: (int, int, int), n: int, p: int)
    requires
        0 <= n,
        0 <= p < count_prefix(bs, act, origin, ext, n),
    ensures
        exists|c: int|
            0 <= c < n && #[trigger] count_prefix(bs, act, origin, ext, c) <= p < count_prefix(bs, act, origin, ext, c)
                + cell_count(bs, act, origin, ext, c),
    decreases n,
{
    if n > 0 {
        if p < count_prefix(bs, act, origin, ext, n - 1) {
            lemma_position_in_cell(bs, act, origin, ext, n - 1, p);
            let c = choose|c: int|
                0 <= c < n - 1 && #[trigger] count_prefix(bs, act, origin, ext, c) <= p < count_prefix(bs, act, origin, ext, c)
                    + cell_count(bs, act, origin, ext, c);
            assert(0 <= c < n);
        } else {
            assert(count_prefix(bs, act, origin, ext, n - 1) <= p < count_prefix(bs, act, origin, ext, n - 1)
                + cell_count(bs, act, origin, ext, n - 1));
        }
    }
}

/// Law: two worlds with the same slots and free list whose grids are both
/// built have the same grid: cells, index buffer, size and (when some brush
/// is in use) origin.
pub proof fn law_grid_determined(w1: World, w2: World)
    requires
        w1.grid_built(),
        w2.grid_built(),
        w1.brushes_view() == w2.brushes_view(),
        w1.free_view() == w2.free_view(),
    ensures
        w1.grid@ == w2.grid@,
        w1.grid_indices@ == w2.grid_indices@,
        w1.grid_size == w2.grid_size,
        w1.active().len() > 0 ==> w1.grid_min == w2.grid_min,
{
    let bs = w1.brushes_view();
    let act = w1.active();
    assert(act == w2.active());
    if act.len() == 0 {
        assert(w1.grid@ =~= w2.grid@);
        assert(w1.grid_indices@ =~= w2.grid_indices@);
    } else {
        let origin = grid_origin(bs, act);
        let ext = grid_extent(bs, act);
        let count = cell_total(ext);
        let total = count_prefix(bs, act, origin, ext, count);
        assert(w1.grid@ =~= w2.grid@) by {
            assert forall|c: int| 0 <= c < w1.grid@.len() implies w1.grid@[c] == w2.grid@[c] by {}
        }
        assert forall|p: int| 0 <= p < w1.grid_indices@.len() implies w1.grid_indices@[p] == w2.grid_indices@[p] by {
            if p < total {
                lemma_position_in_cell(bs, act, origin, ext, count, p);
                let c = choose|c: int|
                    0 <= c < count && #[trigger] count_prefix(bs, act, origin, ext, c) <= p < count_prefix(bs, act, origin, ext, c)
                        + cell_count(bs, act, origin, ext, c);
                let j = p - count_prefix(bs, act, origin, ext, c);
                assert(w1.grid_indices@[count_prefix(bs, act, origin, ext, c) + j] == cell_members(bs, act, origin, ext, c)[j]);
                assert(w2.grid_indices@[count_prefix(bs, act, origin, ext, c) + j] == cell_members(bs, act, origin, ext, c)[j]);
            }
        }
        assert(w1.grid_indices@ =~= w2.grid_indices@);
        assert(triple_u32(w1.grid_size) == triple_u32(w2.grid_size));
        assert(point_view(w1.grid_min) == point_view(w2.grid_min));
    }
}

/// Law: removing a brush in use and adding the same brush back gives the
/// world its slots and free list again, with the brush under its old id.
/// When the grid built before, the removal's rebuild succeeds, and so does
/// the re-add's (it sees the old slots again): the grid is then as before
/// (`law_grid_determined`).
pub proof fn law_remove_then_add_restores(bs: Seq<Brush>, free: Seq<u16>, index: u16)
    requires
        bs.len() <= MAX_BRUSHES,
        (index as int) < bs.len(),
    ensures
        ({
            let (rbs, rfree) = removed(bs, free, index);
            &&& added(rbs, rfree, bs[index as int]) == (bs, free, index)
            &&& grid_error(bs, free) is None && !free.contains(index) ==> grid_error(rbs, rfree) is None
        }),
{
    law_add_after_remove_reuses_slot(bs, free, index, bs[index as int]);
    assert(bs.update(index as int, bs[index as int]) =~= bs);
    if grid_error(bs, free) is None && !free.contains(index) {
        law_remove_keeps_grid(bs, free, index);
    }
}

/// Law: in a world whose grid is built, removing a brush in use and adding
/// the removed brush back succeeds both times, the addition answers with
/// the brush's old id, and the world comes back whole: the same slots, free
/// list and (once the addition has rebuilt it) the same grid.
pub proof fn law_remove_add_restores_world(w: World, index: u16, after: World)
    requires
        w.wf(),
        w.grid_built(),
        grid_error(w.brushes_view(), w.free_view()) is None,
        (index as int) < w.brushes_view().len(),
        !w.free_view().contains(index),
        ({
            let (rbs, rfree) = removed(w.brushes_view(), w.free_view(), index);
            let (abs, afree, _) = added(rbs, rfree, w.brushes_view()[index as int]);
            &&& after.brushes_view() == abs
            &&& after.free_view() == afree
        }),
    ensures
        ({
            let (rbs, rfree) = removed(w.brushes_view(), w.free_view(), index);
            &&& grid_error(rbs, rfree) is None
            &&& added(rbs, rfree, w.brushes_view()[index as int]).2 == index
        }),
        grid_error(after.brushes_view(), after.free_view()) is None,
        after.brushes_view() == w.brushes_view(),
        after.free_view() == w.free_view(),
        after.grid_built() ==> {
            &&& after.grid@ == w.grid@
            &&& after.grid_indices@ == w.grid_indices@
            &&& after.grid_size == w.grid_size
            &&& after.grid_min == w.grid_min
        },
{
    let bs = w.brushes_view();
    let free = w.free_view();
    law_remove_then_add_restores(bs, free, index);
    if after.grid_built() {
        lemma_left_in_use(free, index, bs.len() as int);
        law_grid_determined(w, after);
    }
}

// ---------------------------------------------------------------------
// Bounds on the number of listed entries
// ---------------------------------------------------------------------

/// A cell lists at most as many brushes as are in use.
pub proof fn lemma_members_le(bs: Seq<Brush>, act: Seq<u16>, origin: (int, int, int), ext: (int, int, int), c: int)
    ensures
        cell_members(bs, act, origin, ext, c).len() <= act.len(),
    decreases act.len(),
{
    if act.len() > 0 {
        lemma_members_le(bs, act.drop_last(), origin, ext, c);
    }
}

/// The cells before cell `n` list between none and `n` times the brushes in
/// use.
pub proof fn lemma_count_prefix_bound(bs: Seq<Brush>, act: Seq<u16>, origin: (int, int, int), ext: (int, int, int), n: int)
    requires
        n >= 0,
    ensures
        0 <= count_prefix(bs, act, origin, ext, n) <= n * act.len(),
    decreases n,
{
    if n > 0 {
        lemma_count_prefix_bound(bs, act, origin, ext, n - 1);
        lemma_members_le(bs, act, origin, ext, n - 1);
        assert((n - 1) * act.len() + act.len() == n * act.len()) by (nonlinear_arith);
    }
}

} // verus!
