//! The editor's key bindings and the edits they make to a selected brush.
//!
//! A key press is turned into a `Command` from the key, whether the command
//! modifier (Ctrl or Super) is held, the current selection and whether a brush
//! was copied. Commands that only change a brush's kind, material or
//! operation are carried out here; the others need the player's position and
//! orientation and are carried out by the caller.
use vstd::prelude::*;
use vstd::arithmetic::div_mod::{lemma_small_mod, lemma_mod_self_0, lemma_fundamental_div_mod_converse};
use crate::geometry::{
    Brush, Vec3, Size3, Quat, KIND_BOX, OP_ADD, QUAT_ONE, NUM_BRUSH_KINDS, OP_SUB, corner, coord, corner_sign,
    aabb_lo, aabb_hi, lemma_corners_min_char, lemma_corners_max_char, doubled_local_corner, cross,
    rotate_scaled, corner_divisor,
};
use crate::grid_laws::lemma_count_prefix_bound;
use crate::removal::{law_remove_keeps_grid, law_grid_ignores_kind_and_material, same_shapes};
use crate::materials::{next_material, prev_material};
use crate::world::{
    World, GridError, removed, added, grid_error, law_add_after_remove_reuses_slot, active_upto, world_lo,
    world_hi, grid_origin, grid_extent, cell_total, origin_axis, end_axis, units,
};

verus! {

/// The keys the editor reacts to.
#[derive(Clone, Copy, Debug, PartialEq, Eq, Structural)]
pub enum Key {
    C,
    V,
    O,
    Delete,
    Backspace,
    Enter,
    Q,
    T,
    N,
    M,
    P,
    X,
    R,
    ShiftLeft,
    ShiftRight,
    AltLeft,
    AltRight,
    Other,
}

/// What mouse drags change on the selected brush.
#[derive(Clone, Copy, Debug, PartialEq, Eq, Structural)]
pub enum EditMode {
    Position,
    Rotation,
    Scale,
}

/// An edit of a brush that keeps its place in the world.
#[derive(Clone, Copy, Debug, PartialEq, Eq, Structural)]
pub enum BrushEdit {
    /// Toggle the brush between adding to and subtracting from the world.
    ToggleOp,
    /// Switch to the next shape: box, cylinder, sphere, cone, box...
    NextKind,
    /// Flip to the previous material.
    PrevMaterial,
    /// Flip to the next material.
    NextMaterial,
}

/// What a key press asks for.
#[derive(Clone, Copy, Debug, PartialEq, Eq, Structural)]
pub enum Command {
    Nothing,
    /// Copy the selected brush.
    Copy(u16),
    /// Paste the copied brush in front of the player.
    Paste,
    /// Capture the drag axes: the horizontal axis closest to the player's
    /// right, and the vertical axis (`vertical`) or the horizontal axis
    /// closest to the player's forward direction.
    CaptureAxes { vertical: bool },
    /// Create a box in front of the player.
    Create,
    /// Delete the selected brush.
    Delete(u16),
    /// Unselect the selected brush.
    Unselect,
    /// Subtract a cylinder in front of the player.
    Carve,
    /// Edit the selected brush.
    Edit(u16, BrushEdit),
    /// Switch the edit mode.
    SetMode(EditMode),
}

/// The command of a key press.
pub open spec fn command_of(key: Key, command_held: bool, selected: Option<u16>, has_copy: bool) -> Command {
    if command_held {
        match key {
            Key::C => match selected {
                Some(id) => Command::Copy(id),
                None => Command::Nothing,
            },
            Key::V => if has_copy {
                Command::Paste
            } else {
                Command::Nothing
            },
            _ => Command::Nothing,
        }
    } else {
        match key {
            Key::ShiftLeft | Key::ShiftRight => Command::CaptureAxes { vertical: true },
            Key::AltLeft | Key::AltRight => Command::CaptureAxes { vertical: false },
            Key::O => Command::Create,
            Key::Delete | Key::Backspace => match selected {
                Some(id) => Command::Delete(id),
                None => Command::Nothing,
            },
            Key::Enter => Command::Unselect,
            Key::C => Command::Carve,
            Key::Q => match selected {
                Some(id) => Command::Edit(id, BrushEdit::ToggleOp),
                None => Command::Nothing,
            },
            Key::T => match selected {
                Some(id) => Command::Edit(id, BrushEdit::NextKind),
                None => Command::Nothing,
            },
            Key::N => match selected {
                Some(id) => Command::Edit(id, BrushEdit::PrevMaterial),
                None => Command::Nothing,
            },
            Key::M => match selected {
                Some(id) => Command::Edit(id, BrushEdit::NextMaterial),
                None => Command::Nothing,
            },
            Key::P => Command::SetMode(EditMode::Position),
            Key::X => Command::SetMode(EditMode::Scale),
            Key::R => Command::SetMode(EditMode::Rotation),
            _ => Command::Nothing,
        }
    }
}

/// Decide what a key press does. With the command modifier held, only copy
/// (C) and paste (V) are bound.
pub fn key_command(key: Key, command_held: bool, selected: Option<u16>, has_copy: bool) -> (r: Command)
    ensures
        r == command_of(key, command_held, selected, has_copy),
{
    if command_held {
        return match key {
            Key::C => match selected {
                Some(id) => Command::Copy(id),
                None => Command::Nothing,
            },
            Key::V => if has_copy {
                Command::Paste
            } else {
                Command::Nothing
            },
            _ => Command::Nothing,
        };
    }
    match key {
        Key::ShiftLeft | Key::ShiftRight => Command::CaptureAxes { vertical: true },
        Key::AltLeft | Key::AltRight => Command::CaptureAxes { vertical: false },
        Key::O => Command::Create,
        Key::Delete | Key::Backspace => match selected {
            Some(id) => Command::Delete(id),
            None => Command::Nothing,
        },
        Key::Enter => Command::Unselect,
        Key::C => Command::Carve,
        Key::Q => match selected {
            Some(id) => Command::Edit(id, BrushEdit::ToggleOp),
            None => Command::Nothing,
        },
        Key::T => match selected {
            Some(id) => Command::Edit(id, BrushEdit::NextKind),
            None => Command::Nothing,
        },
        Key::N => match selected {
            Some(id) => Command::Edit(id, BrushEdit::PrevMaterial),
            None => Command::Nothing,
        },
        Key::M => match selected {
            Some(id) => Command::Edit(id, BrushEdit::NextMaterial),
            None => Command::Nothing,
        },
        Key::P => Command::SetMode(EditMode::Position),
        Key::X => Command::SetMode(EditMode::Scale),
        Key::R => Command::SetMode(EditMode::Rotation),
        _ => Command::Nothing,
    }
}

/// Whether the edit can be made with `num_materials` materials: the
/// material edits need at least one material, and the next material after
/// the largest id does not exist.
pub open spec fn edit_allowed(b: Brush, edit: BrushEdit, num_materials: u32) -> bool {
    match edit {
        BrushEdit::PrevMaterial => num_materials > 0,
        BrushEdit::NextMaterial => num_materials > 0 && b.material < u32::MAX,
        _ => true,
    }
}

/// The brush after an edit.
pub open spec fn edited(b: Brush, edit: BrushEdit, num_materials: u32) -> Brush {
    match edit {
        BrushEdit::ToggleOp => Brush {
            op: if b.op == OP_SUB {
                OP_ADD
            } else {
                OP_SUB
            },
            ..b
        },
        BrushEdit::NextKind => Brush {
            kind: (((b.kind as int) % (NUM_BRUSH_KINDS as int) + 1) % (NUM_BRUSH_KINDS as int)) as u32,
            ..b
        },
        BrushEdit::PrevMaterial => Brush {
            material: if b.material > 0 {
                (b.material - 1) as u32
            } else {
                (num_materials - 1) as u32
            },
            ..b
        },
        BrushEdit::NextMaterial => Brush {
            material: ((b.material + 1) % (num_materials as int)) as u32,
            ..b
        },
    }
}

/// Apply an edit to a brush.
pub fn edit_brush(b: Brush, edit: BrushEdit, num_materials: u32) -> (r: Brush)
    requires
        edit_allowed(b, edit, num_materials),
    ensures
        r == edited(b, edit, num_materials),
{
    let mut r = b;
    match edit {
        BrushEdit::ToggleOp => {
            r.op = if b.op == OP_SUB {
                OP_ADD
            } else {
                OP_SUB
            };
        },
        BrushEdit::NextKind => {
            // The next shape after `kind`, wrapping around (also from the largest kind)
            r.kind = (b.kind % NUM_BRUSH_KINDS + 1) % NUM_BRUSH_KINDS;
        },
        BrushEdit::PrevMaterial => {
            r.material = prev_material(b.material, num_materials);
        },
        BrushEdit::NextMaterial => {
            r.material = next_material(b.material, num_materials);
        },
    }
    r
}

impl World {
    /// Edit the brush `id`: take it out of the world, change it and add it
    /// back. The brush goes back into its own slot, so that its id stays the
    /// same; the answer is that id, or the error of a grid rebuild.
    pub fn edit_selected(&mut self, id: u16, edit: BrushEdit, num_materials: u32) -> (res: Result<u16, GridError>)
        requires
            old(self).wf(),
            (id as int) < old(self).brushes_view().len(),
            edit_allowed(old(self).brushes_view()[id as int], edit, num_materials),
        ensures
            final(self).wf(),
            final(self).header == old(self).header,
            final(self).comments@ == old(self).comments@,
            ({
                let (rbs, rfree) = removed(old(self).brushes_view(), old(self).free_view(), id);
                let nb = edited(old(self).brushes_view()[id as int], edit, num_materials);
                match grid_error(rbs, rfree) {
                    Some(e) => {
                        &&& res == Err::<u16, GridError>(e)
                        &&& final(self).brushes_view() == rbs
                        &&& final(self).free_view() == rfree
                    },
                    None => {
                        &&& final(self).brushes_view() == old(self).brushes_view().update(id as int, nb)
                        &&& final(self).free_view() == old(self).free_view()
                        &&& res == match grid_error(final(self).brushes_view(), final(self).free_view()) {
                            None => Ok::<u16, GridError>(id),
                            Some(e) => Err(e),
                        }
                        &&& res is Ok ==> final(self).grid_built()
                    },
                }
            }),
            // In a world whose grid builds, taking out a brush in use never fails, and
            // an edit other than the toggle leaves the grid as it was.
            grid_error(old(self).brushes_view(), old(self).free_view()) is None && !old(self).free_view().contains(
                id,
            ) ==> grid_error(
                removed(old(self).brushes_view(), old(self).free_view(), id).0,
                removed(old(self).brushes_view(), old(self).free_view(), id).1,
            ) is None && (edit != BrushEdit::ToggleOp ==> res == Ok::<u16, GridError>(id)),
    {
        let ghost bs = self.brushes_view();
        let ghost free = self.free_view();
        proof {
            if grid_error(bs, free) is None && !free.contains(id) {
                law_remove_keeps_grid(bs, free, id);
                let nb = edited(bs[id as int], edit, num_materials);
                if edit != BrushEdit::ToggleOp {
                    assert(same_shapes(bs, bs.update(id as int, nb)));
                    law_grid_ignores_kind_and_material(bs, bs.update(id as int, nb), free);
                }
            }
        }
        let brush = match self.remove_brush(id) {
            Ok(b) => b,
            Err(e) => {
                return Err(e);
            },
        };
        let nb = edit_brush(brush, edit, num_materials);
        proof {
            law_add_after_remove_reuses_slot(bs, free, id, nb);
        }
        self.add_brush(nb)
    }
}

/// Law: toggling a brush's operation twice gives the brush back.
pub proof fn law_toggle_twice(b: Brush, n: u32)
    requires
        b.op == OP_ADD || b.op == OP_SUB,
    ensures
        edited(edited(b, BrushEdit::ToggleOp, n), BrushEdit::ToggleOp, n) == b,
{
}

/// Law: four shape switches bring a brush back to its shape.
pub proof fn law_kind_cycle(b: Brush, n: u32)
    requires
        b.kind < NUM_BRUSH_KINDS,
    ensures
        edited(edited(edited(edited(b, BrushEdit::NextKind, n), BrushEdit::NextKind, n), BrushEdit::NextKind, n), BrushEdit::NextKind, n)
            == b,
{
}

/// Law: with `n` materials, flipping to the next material and back (or back
/// and then forward) returns to the material it started from.
pub proof fn law_material_round_trip(b: Brush, n: u32)
    requires
        b.material < n,
    ensures
        edited(edited(b, BrushEdit::NextMaterial, n), BrushEdit::PrevMaterial, n) == b,
        edited(edited(b, BrushEdit::PrevMaterial, n), BrushEdit::NextMaterial, n) == b,
{
    let m = b.material as int;
    if m + 1 < n {
        lemma_small_mod((m + 1) as nat, n as nat);
    } else {
        lemma_mod_self_0(n as int);
    }
    if m > 0 {
        lemma_small_mod(m as nat, n as nat);
    } else {
        lemma_mod_self_0(n as int);
    }
}

/// The grass surface of a new world: a slab 60 m wide and 10 cm thick whose
/// top is at height 0.
pub open spec fn grass_brush(grass: u32) -> Brush {
    Brush {
        pos: Vec3 { x: 0, y: -50_000i64, z: 0 },
        kind: KIND_BOX,
        scale: Size3 { x: 60_000_000, y: 100_000, z: 60_000_000 },
        material: grass,
        rot: Quat { x: 0, y: 0, z: 0, w: QUAT_ONE },
        op: OP_ADD,
    }
}

/// The dirt under the grass: a block 60 m wide and 16 m deep.
pub open spec fn dirt_brush(dirt: u32) -> Brush {
    Brush {
        pos: Vec3 { x: 0, y: -8_050_000i64, z: 0 },
        kind: KIND_BOX,
        scale: Size3 { x: 60_000_000, y: 16_000_000, z: 60_000_000 },
        material: dirt,
        rot: Quat { x: 0, y: 0, z: 0, w: QUAT_ONE },
        op: OP_ADD,
    }
}

/// Corner `i` of an unrotated brush whose sizes are even numbers of units.
proof fn lemma_box_corner(b: Brush, i: int, k: int)
    requires
        b.rot == (Quat { x: 0, y: 0, z: 0, w: QUAT_ONE }),
        b.scale.x % 2 == 0,
        b.scale.y % 2 == 0,
        b.scale.z % 2 == 0,
        0 <= k < 3,
    ensures
        coord(corner(b, i), k) == if k == 0 {
            b.pos.x + corner_sign(i, 1) * (b.scale.x / 2)
        } else if k == 1 {
            b.pos.y + corner_sign(i, 2) * (b.scale.y / 2)
        } else {
            b.pos.z + corner_sign(i, 4) * (b.scale.z / 2)
        },
{
    let qq = QUAT_ONE as int * QUAT_ONE as int;
    let (v, bit) = if k == 0 {
        (b.scale.x as int, 1int)
    } else if k == 1 {
        (b.scale.y as int, 2int)
    } else {
        (b.scale.z as int, 4int)
    };
    let sv = corner_sign(i, bit) * v;
    let h = corner_sign(i, bit) * (v / 2);
    let dl = doubled_local_corner(b, i);
    assert(cross((0int, 0int, 0int), dl) == (0int, 0int, 0int));
    assert(cross((0int, 0int, 0int), (0int, 0int, 0int)) == (0int, 0int, 0int));
    let r = rotate_scaled(b.rot, dl);
    let t = cross((0int, 0int, 0int), dl);
    assert(t == (0int, 0int, 0int));
    assert(r.0 == qq * dl.0 + 2 * (QUAT_ONE * t.0) + 2 * cross((0int, 0int, 0int), t).0);
    assert(r == (qq * dl.0, qq * dl.1, qq * dl.2));
    assert(corner_divisor() == 2 * qq);
    assert(coord(dl, k) == sv);
    assert(qq * sv == (2 * qq) * h) by (nonlinear_arith)
        requires
            v % 2 == 0,
            sv == corner_sign(i, bit) * v,
            h == corner_sign(i, bit) * (v / 2),
    ;
    lemma_fundamental_div_mod_converse(qq * sv, 2 * qq, h, 0);
}

/// The bounding box of an unrotated brush with even, non-negative sizes.
proof fn lemma_box_aabb(b: Brush)
    requires
        b.rot == (Quat { x: 0, y: 0, z: 0, w: QUAT_ONE }),
        b.scale.x % 2 == 0 && b.scale.x >= 0,
        b.scale.y % 2 == 0 && b.scale.y >= 0,
        b.scale.z % 2 == 0 && b.scale.z >= 0,
    ensures
        aabb_lo(b, 0) == b.pos.x - b.scale.x / 2 && aabb_hi(b, 0) == b.pos.x + b.scale.x / 2,
        aabb_lo(b, 1) == b.pos.y - b.scale.y / 2 && aabb_hi(b, 1) == b.pos.y + b.scale.y / 2,
        aabb_lo(b, 2) == b.pos.z - b.scale.z / 2 && aabb_hi(b, 2) == b.pos.z + b.scale.z / 2,
{
    assert forall|k: int| 0 <= k < 3 implies aabb_lo(b, k) == coord(corner(b, 0), k) && aabb_hi(b, k) == coord(
        corner(b, 7),
        k,
    ) by {
        lemma_corners_min_char(b, 8, k);
        lemma_corners_max_char(b, 8, k);
        lemma_box_corner(b, 0, k);
        lemma_box_corner(b, 7, k);
        let j = choose|j: int| 0 <= j < 8 && aabb_lo(b, k) == #[trigger] coord(corner(b, j), k);
        lemma_box_corner(b, j, k);
        let m = choose|j: int| 0 <= j < 8 && aabb_hi(b, k) == #[trigger] coord(corner(b, j), k);
        lemma_box_corner(b, m, k);
        assert(corner_sign(j, 1) == -1 || corner_sign(j, 1) == 1);
        assert(corner_sign(j, 2) == -1 || corner_sign(j, 2) == 1);
        assert(corner_sign(j, 4) == -1 || corner_sign(j, 4) == 1);
        assert(corner_sign(m, 1) == -1 || corner_sign(m, 1) == 1);
        assert(corner_sign(m, 2) == -1 || corner_sign(m, 2) == 1);
        assert(corner_sign(m, 4) == -1 || corner_sign(m, 4) == 1);
        assert(corner_sign(0, 1) == -1 && corner_sign(0, 2) == -1 && corner_sign(0, 4) == -1);
        assert(corner_sign(7, 1) == 1 && corner_sign(7, 2) == 1 && corner_sign(7, 4) == 1);
    }
    lemma_box_corner(b, 0, 0);
    lemma_box_corner(b, 0, 1);
    lemma_box_corner(b, 0, 2);
    lemma_box_corner(b, 7, 0);
    lemma_box_corner(b, 7, 1);
    lemma_box_corner(b, 7, 2);
    assert(corner_sign(0, 1) == -1 && corner_sign(0, 2) == -1 && corner_sign(0, 4) == -1);
    assert(corner_sign(7, 1) == 1 && corner_sign(7, 2) == 1 && corner_sign(7, 4) == 1);
}

/// The starter brushes always have a grid, alone and together.
proof fn lemma_starter_grids(grass: u32, dirt: u32)
    ensures
        grid_error(seq![grass_brush(grass)], Seq::empty()) is None,
        grid_error(seq![grass_brush(grass), dirt_brush(dirt)], Seq::empty()) is None,
{
    let g = grass_brush(grass);
    let d = dirt_brush(dirt);
    lemma_box_aabb(g);
    lemma_box_aabb(d);
    let e = Seq::<u16>::empty();
    let bs1 = seq![g];
    let bs2 = seq![g, d];
    let a0 = active_upto(e, 0);
    assert(!e.contains(0u16) && !e.contains(1u16));
    let a1 = active_upto(e, 1);
    assert(a1 == a0.push(0u16));
    assert(a1 =~= seq![0u16]);
    let a2 = active_upto(e, 2);
    assert(a2 == a1.push(1u16));
    assert(a2 =~= seq![0u16, 1u16]);
    assert(a2.drop_last() =~= a1);
    assert(bs1[0] == g && bs2[0] == g && bs2[1] == d);
    // One brush: cells -31..31, -2..1, -31..31
    assert(world_lo(bs1, a1, 0) == -30_000_000 && world_hi(bs1, a1, 0) == 30_000_000);
    assert(world_lo(bs1, a1, 1) == -100_000 && world_hi(bs1, a1, 1) == 0);
    assert(world_lo(bs1, a1, 2) == -30_000_000 && world_hi(bs1, a1, 2) == 30_000_000);
    assert(units() == 1_000_000);
    assert((-31_000_000int) / 1_000_000int == -31) by (nonlinear_arith);
    assert((-1_100_000int) / 1_000_000int == -2) by (nonlinear_arith);
    assert((-1_000_000int) / 1_000_000int == -1) by (nonlinear_arith);
    assert((-17_050_000int) / 1_000_000int == -18) by (nonlinear_arith);
    assert(origin_axis(bs1, a1, 0) == -31 && end_axis(bs1, a1, 0) == 31);
    assert(origin_axis(bs1, a1, 1) == -2 && end_axis(bs1, a1, 1) == 1);
    assert(origin_axis(bs1, a1, 2) == -31 && end_axis(bs1, a1, 2) == 31);
    let ext1 = grid_extent(bs1, a1);
    assert(ext1 == (62int, 3int, 62int));
    assert(cell_total(ext1) == 11532) by (nonlinear_arith)
        requires
            ext1 == (62int, 3int, 62int),
    ;
    lemma_count_prefix_bound(bs1, a1, grid_origin(bs1, a1), ext1, 11531);
    // Both brushes: cells -31..31, -18..1, -31..31
    assert(a2.last() == 1u16);
    assert(world_lo(bs2, a1, 0) == aabb_lo(g, 0) && world_hi(bs2, a1, 0) == aabb_hi(g, 0));
    assert(world_lo(bs2, a1, 1) == aabb_lo(g, 1) && world_hi(bs2, a1, 1) == aabb_hi(g, 1));
    assert(world_lo(bs2, a1, 2) == aabb_lo(g, 2) && world_hi(bs2, a1, 2) == aabb_hi(g, 2));
    assert(world_lo(bs2, a2, 0) == -30_000_000 && world_hi(bs2, a2, 0) == 30_000_000);
    assert(world_lo(bs2, a2, 1) == -16_050_000 && world_hi(bs2, a2, 1) == 0);
    assert(world_lo(bs2, a2, 2) == -30_000_000 && world_hi(bs2, a2, 2) == 30_000_000);
    assert(origin_axis(bs2, a2, 0) == -31 && end_axis(bs2, a2, 0) == 31);
    assert(origin_axis(bs2, a2, 1) == -18 && end_axis(bs2, a2, 1) == 1);
    assert(origin_axis(bs2, a2, 2) == -31 && end_axis(bs2, a2, 2) == 31);
    let ext2 = grid_extent(bs2, a2);
    assert(ext2 == (62int, 19int, 62int));
    assert(cell_total(ext2) == 73036) by (nonlinear_arith)
        requires
            ext2 == (62int, 19int, 62int),
    ;
    lemma_count_prefix_bound(bs2, a2, grid_origin(bs2, a2), ext2, 73035);
}

/// Law: both brushes of the starter world add to the world; the first has
/// the grass material and the second the dirt material, and the dirt's top
/// face lies within the grass slab, so there is ground right under the grass.
pub proof fn law_starter_ground(grass: u32, dirt: u32)
    ensures
        ({
            let bs = seq![grass_brush(grass), dirt_brush(dirt)];
            &&& forall|i: int| 0 <= i < bs.len() ==> #[trigger] bs[i].op == OP_ADD
            &&& bs[0].material == grass
            &&& bs[1].material == dirt
            &&& bs[0].pos.y - bs[0].scale.y / 2 <= bs[1].pos.y + bs[1].scale.y / 2 <= bs[0].pos.y + bs[0].scale.y / 2
        }),
{
}

/// The world an editing session starts with: grass over dirt, with the
/// given materials.
pub fn starter_world(grass: u32, dirt: u32) -> (r: Result<World, GridError>)
    ensures
        r matches Ok(w) && {
            &&& w.wf()
            &&& w.brushes_view() == seq![grass_brush(grass), dirt_brush(dirt)]
            &&& w.free_view().len() == 0
            &&& w.grid_built()
            &&& w.header@.len() == 0
            &&& w.comments@ == Map::<u16, Vec<u8>>::empty()
            &&& forall|i: int| 0 <= i < w.brushes_view().len() ==> #[trigger] w.brushes_view()[i].op == OP_ADD
            &&& w.brushes_view()[0].material == grass
            &&& w.brushes_view()[1].material == dirt
            &&& w.brushes_view()[0].pos.y - w.brushes_view()[0].scale.y / 2 <= w.brushes_view()[1].pos.y
                + w.brushes_view()[1].scale.y / 2 <= w.brushes_view()[0].pos.y + w.brushes_view()[0].scale.y / 2
        },
{
    proof {
        lemma_starter_grids(grass, dirt);
        law_starter_ground(grass, dirt);
    }
    let mut world = World::new();
    // Grass surface
    let g = Brush {
        pos: Vec3 { x: 0, y: -50_000, z: 0 },
        kind: KIND_BOX,
        scale: Size3 { x: 60_000_000, y: 100_000, z: 60_000_000 },
        material: grass,
        rot: Quat { x: 0, y: 0, z: 0, w: QUAT_ONE },
        op: OP_ADD,
    };
    // Dirt under the grass
    let d = Brush {
        pos: Vec3 { x: 0, y: -8_050_000, z: 0 },
        kind: KIND_BOX,
        scale: Size3 { x: 60_000_000, y: 16_000_000, z: 60_000_000 },
        material: dirt,
        rot: Quat { x: 0, y: 0, z: 0, w: QUAT_ONE },
        op: OP_ADD,
    };
    match world.add_brush(g) {
        Ok(_) => {},
        Err(e) => {
            assert(world.brushes_view() =~= seq![grass_brush(grass)]);
            assert(world.free_view() =~= Seq::<u16>::empty());
            return Err(e);
        },
    }
    assert(world.brushes_view() =~= seq![grass_brush(grass)]);
    assert(world.free_view() =~= Seq::<u16>::empty());
    match world.add_brush(d) {
        Ok(_) => {},
        Err(e) => {
            assert(world.brushes_view() =~= seq![grass_brush(grass), dirt_brush(dirt)]);
            assert(world.free_view() =~= Seq::<u16>::empty());
            return Err(e);
        },
    }
    assert(world.brushes_view() =~= seq![grass_brush(grass), dirt_brush(dirt)]);
    assert(world.free_view() =~= Seq::<u16>::empty());
    Ok(world)
}

} // verus!
