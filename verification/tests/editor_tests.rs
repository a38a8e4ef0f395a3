use tinkerfield::editor::{edit_brush, key_command, starter_world, BrushEdit, Command, EditMode, Key};
use tinkerfield::geometry::{Brush, Quat, Size3, Vec3, KIND_BOX, KIND_CONE, KIND_CYLINDER, OP_ADD, OP_SUB, QUAT_ONE};
use tinkerfield::world::World;

fn cube(material: u32) -> Brush {
    Brush {
        pos: Vec3 { x: 0, y: 0, z: 0 },
        kind: KIND_BOX,
        scale: Size3 { x: 1_000_000, y: 1_000_000, z: 1_000_000 },
        material,
        rot: Quat { x: 0, y: 0, z: 0, w: QUAT_ONE },
        op: OP_ADD,
    }
}

#[test]
fn command_modifier_bindings() {
    assert_eq!(key_command(Key::C, true, Some(4), false), Command::Copy(4));
    assert_eq!(key_command(Key::C, true, None, true), Command::Nothing);
    assert_eq!(key_command(Key::V, true, None, true), Command::Paste);
    assert_eq!(key_command(Key::V, true, Some(1), false), Command::Nothing);
    // Other keys do nothing while the modifier is held.
    assert_eq!(key_command(Key::O, true, Some(1), true), Command::Nothing);
    assert_eq!(key_command(Key::Delete, true, Some(1), true), Command::Nothing);
}

#[test]
fn plain_bindings() {
    assert_eq!(key_command(Key::ShiftLeft, false, None, false), Command::CaptureAxes { vertical: true });
    assert_eq!(key_command(Key::ShiftRight, false, None, false), Command::CaptureAxes { vertical: true });
    assert_eq!(key_command(Key::AltLeft, false, None, false), Command::CaptureAxes { vertical: false });
    assert_eq!(key_command(Key::AltRight, false, None, false), Command::CaptureAxes { vertical: false });
    assert_eq!(key_command(Key::O, false, None, false), Command::Create);
    assert_eq!(key_command(Key::Delete, false, Some(3), false), Command::Delete(3));
    assert_eq!(key_command(Key::Backspace, false, Some(3), false), Command::Delete(3));
    assert_eq!(key_command(Key::Delete, false, None, false), Command::Nothing);
    assert_eq!(key_command(Key::Enter, false, Some(3), false), Command::Unselect);
    assert_eq!(key_command(Key::C, false, None, false), Command::Carve);
    assert_eq!(key_command(Key::Q, false, Some(2), false), Command::Edit(2, BrushEdit::ToggleOp));
    assert_eq!(key_command(Key::T, false, Some(2), false), Command::Edit(2, BrushEdit::NextKind));
    assert_eq!(key_command(Key::N, false, Some(2), false), Command::Edit(2, BrushEdit::PrevMaterial));
    assert_eq!(key_command(Key::M, false, Some(2), false), Command::Edit(2, BrushEdit::NextMaterial));
    assert_eq!(key_command(Key::T, false, None, false), Command::Nothing);
    assert_eq!(key_command(Key::P, false, None, false), Command::SetMode(EditMode::Position));
    assert_eq!(key_command(Key::X, false, None, false), Command::SetMode(EditMode::Scale));
    assert_eq!(key_command(Key::R, false, None, false), Command::SetMode(EditMode::Rotation));
    assert_eq!(key_command(Key::Other, false, Some(1), true), Command::Nothing);
}

#[test]
fn brush_edits() {
    let b = cube(0);
    assert_eq!(edit_brush(b, BrushEdit::ToggleOp, 5).op, OP_SUB);
    assert_eq!(edit_brush(Brush { op: OP_SUB, ..b }, BrushEdit::ToggleOp, 5).op, OP_ADD);
    assert_eq!(edit_brush(edit_brush(b, BrushEdit::ToggleOp, 5), BrushEdit::ToggleOp, 5), b);
    assert_eq!(edit_brush(b, BrushEdit::NextKind, 5).kind, KIND_CYLINDER);
    let cone = Brush { kind: KIND_CONE, ..b };
    assert_eq!(edit_brush(cone, BrushEdit::NextKind, 5).kind, KIND_BOX);
    assert_eq!(edit_brush(b, BrushEdit::PrevMaterial, 5).material, 4);
    assert_eq!(edit_brush(cube(4), BrushEdit::NextMaterial, 5).material, 0);
    assert_eq!(edit_brush(cube(2), BrushEdit::NextMaterial, 5).material, 3);
    assert_eq!(edit_brush(cube(2), BrushEdit::PrevMaterial, 5).material, 1);
    // Only the edited field changes.
    let e = edit_brush(b, BrushEdit::NextMaterial, 5);
    assert_eq!(Brush { material: 0, ..e }, b);
}

#[test]
fn four_kind_switches_come_back() {
    let mut b = cube(0);
    for _ in 0..4 {
        b = edit_brush(b, BrushEdit::NextKind, 1);
    }
    assert_eq!(b, cube(0));
}

#[test]
fn edit_keeps_the_id() {
    let mut w = World::new();
    w.add_brush(cube(0)).unwrap();
    let id = w.add_brush(cube(1)).unwrap();
    w.add_brush(cube(2)).unwrap();
    let same = w.edit_selected(id, BrushEdit::NextMaterial, 3).unwrap();
    assert_eq!(same, id);
    assert_eq!(w.get_brush(id).material, 2);
    let same = w.edit_selected(id, BrushEdit::ToggleOp, 3).unwrap();
    assert_eq!(same, id);
    assert_eq!(w.get_brush(id).op, OP_SUB);
    w.edit_selected(id, BrushEdit::ToggleOp, 3).unwrap();
    assert_eq!(w.get_brush(id).op, OP_ADD);
    let ids: Vec<u16> = w.active_brushes().iter().map(|(i, _)| *i).collect();
    assert_eq!(ids, vec![0, 1, 2]);
}

#[test]
fn starter_world_has_grass_over_dirt() {
    let w = starter_world(7, 8).ok().unwrap();
    let bs = w.active_brushes();
    assert_eq!(bs.len(), 2);
    assert_eq!(bs[0].1.material, 7);
    assert_eq!(bs[0].1.pos.y, -50_000);
    assert_eq!(bs[1].1.material, 8);
    assert_eq!(bs[1].1.scale, Size3 { x: 60_000_000, y: 16_000_000, z: 60_000_000 });
    // Grass -0.1..0 m and dirt -16.05..-0.05 m, 60 m wide, padded by a metre.
    assert_eq!(w.grid_size, [62, 19, 62]);
}

#[test]
fn edits_on_a_brush_of_any_kind() {
    let odd = Brush { kind: u32::MAX, ..cube(1) };
    assert_eq!(edit_brush(odd, BrushEdit::NextKind, 3).kind, KIND_BOX);
    assert_eq!(edit_brush(Brush { kind: 6, ..odd }, BrushEdit::NextKind, 3).kind, 3);
    let mut w = World::new();
    let id = w.add_brush(odd).unwrap();
    assert_eq!(w.edit_selected(id, BrushEdit::NextMaterial, 3).unwrap(), id);
    assert_eq!(w.get_brush(id).material, 2);
    assert_eq!(w.edit_selected(id, BrushEdit::ToggleOp, 3).unwrap(), id);
    assert_eq!(w.get_brush(id).op, OP_SUB);
    assert_eq!(w.get_brush(id).kind, u32::MAX);
    assert_eq!(w.edit_selected(id, BrushEdit::NextKind, 3).unwrap(), id);
    assert_eq!(w.get_brush(id).kind, KIND_BOX);
}
