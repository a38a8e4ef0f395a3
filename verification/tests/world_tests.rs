use tinkerfield::geometry::{Brush, Point, Quat, Size3, Vec3, KIND_BOX, KIND_SPHERE, OP_ADD, OP_SUB, QUAT_ONE};
use tinkerfield::world::{GridError, World, SLOT_EMPTY};

const M: i64 = 1_000_000;

fn identity() -> Quat {
    Quat { x: 0, y: 0, z: 0, w: QUAT_ONE }
}

fn cube(x: i64, y: i64, z: i64, side: i32, op: u32) -> Brush {
    Brush {
        pos: Vec3 { x, y, z },
        kind: KIND_BOX,
        scale: Size3 { x: side, y: side, z: side },
        material: 3,
        rot: identity(),
        op,
    }
}

#[test]
fn aabb_of_unrotated_box() {
    let b = Brush {
        pos: Vec3 { x: M, y: 2 * M, z: 3 * M },
        kind: KIND_BOX,
        scale: Size3 { x: 2_000_000, y: 4_000_000, z: 6_000_000 },
        material: 0,
        rot: identity(),
        op: OP_ADD,
    };
    let (lo, hi) = b.get_aabb();
    assert_eq!(lo, Point { x: 0, y: 0, z: 0 });
    assert_eq!(hi, Point { x: 2_000_000, y: 4_000_000, z: 6_000_000 });
}

#[test]
fn aabb_of_half_turn_about_y() {
    // A half turn about Y maps (x, y, z) to (-x, y, -z): the box keeps its bounds.
    let b = Brush {
        pos: Vec3 { x: 0, y: 0, z: 0 },
        kind: KIND_BOX,
        scale: Size3 { x: 2_000_000, y: 1_000_000, z: 4_000_000 },
        material: 0,
        rot: Quat { x: 0, y: QUAT_ONE, z: 0, w: 0 },
        op: OP_ADD,
    };
    let (lo, hi) = b.get_aabb();
    assert_eq!(lo, Point { x: -1_000_000, y: -500_000, z: -2_000_000 });
    assert_eq!(hi, Point { x: 1_000_000, y: 500_000, z: 2_000_000 });
}

#[test]
fn aabb_of_quarter_turn_about_z() {
    // A quarter turn about Z, (0, 0, sin 45, cos 45), swaps the X and Y extents
    // (up to the rounding of the fixed-point quaternion).
    let s: i32 = 759_250_125;
    let b = Brush {
        pos: Vec3 { x: 0, y: 0, z: 0 },
        kind: KIND_BOX,
        scale: Size3 { x: 4_000_000, y: 2_000_000, z: 2_000_000 },
        material: 0,
        rot: Quat { x: 0, y: 0, z: s, w: s },
        op: OP_ADD,
    };
    let (lo, hi) = b.get_aabb();
    assert!((lo.x + 1_000_000).abs() <= 2, "lo.x = {}", lo.x);
    assert!((hi.x - 1_000_000).abs() <= 2, "hi.x = {}", hi.x);
    assert!((lo.y + 2_000_000).abs() <= 2, "lo.y = {}", lo.y);
    assert!((hi.y - 2_000_000).abs() <= 2, "hi.y = {}", hi.y);
    assert_eq!(lo.z, -1_000_000);
    assert_eq!(hi.z, 1_000_000);
}

#[test]
fn corners_of_a_box() {
    let b = cube(0, 0, 0, 2_000_000, OP_ADD);
    assert_eq!(b.corner(0), Point { x: -M as i128, y: -M as i128, z: -M as i128 });
    assert_eq!(b.corner(1), Point { x: M as i128, y: -M as i128, z: -M as i128 });
    assert_eq!(b.corner(6), Point { x: -M as i128, y: M as i128, z: M as i128 });
    assert_eq!(b.corner(7), Point { x: M as i128, y: M as i128, z: M as i128 });
}

#[test]
fn new_world_is_empty() {
    let w = World::new();
    assert_eq!(w.num_slots(), 0);
    assert!(w.active_brushes().is_empty());
    assert!(w.grid.is_empty());
    assert!(w.grid_indices.is_empty());
    assert_eq!(w.grid_size, [0, 0, 0]);
    assert!(w.header.is_empty());
    assert!(w.comments.is_empty());
}

#[test]
fn grid_of_one_cube() {
    let mut w = World::new();
    let id = w.add_brush(cube(0, 0, 0, 1_000_000, OP_ADD)).unwrap();
    assert_eq!(id, 0);
    // Bounds -0.5..0.5 m, padded by a metre: cells -2..2 on each axis.
    assert_eq!(w.grid_min, Point { x: -2, y: -2, z: -2 });
    assert_eq!(w.grid_size, [4, 4, 4]);
    assert_eq!(w.grid.len(), 64);
    // The cube covers cells 1..=3 on each axis: 27 cells, one brush each.
    let mut covered = 0;
    let mut offset = 0u32;
    for y in 0..4u32 {
        for z in 0..4u32 {
            for x in 0..4u32 {
                let c = w.grid[((y * 4 + z) * 4 + x) as usize];
                let inside = (1..=3).contains(&x) && (1..=3).contains(&y) && (1..=3).contains(&z);
                assert_eq!(c & 0xff, if inside { 1 } else { 0 });
                assert_eq!(c >> 8, offset);
                offset += c & 0xff;
                if inside {
                    covered += 1;
                }
            }
        }
    }
    assert_eq!(covered, 27);
    // 27 indices, padded to an even count.
    assert_eq!(w.grid_indices.len(), 28);
    assert!(w.grid_indices[..27].iter().all(|&i| i == 0));
    assert_eq!(w.grid_indices[27], 0);
    let u = w.uniforms();
    assert_eq!(u.grid_min, Point { x: -2, y: -2, z: -2 });
    assert_eq!((u.grid_size_x, u.grid_size_y, u.grid_size_z), (4, 4, 4));
}

#[test]
fn subtracting_brush_only_listed_after_another() {
    let mut w = World::new();
    // A subtracting cube alone lists nowhere.
    w.add_brush(cube(0, 0, 0, 1_000_000, OP_SUB)).unwrap();
    assert!(w.grid.iter().all(|&c| c & 0xff == 0));
    assert!(w.grid_indices.is_empty());
    // An adding cube after it is listed alone: the subtracting cube comes
    // first in slot order, when its cells are still empty.
    w.add_brush(cube(0, 0, 0, 1_000_000, OP_ADD)).unwrap();
    assert!(w.grid.iter().all(|&c| c & 0xff <= 1));
    // A second subtracting cube after the adding one is listed with it.
    w.add_brush(cube(0, 0, 0, 1_000_000, OP_SUB)).unwrap();
    assert!(w.grid.iter().any(|&c| c & 0xff == 2));
    for &c in w.grid.iter() {
        let n = (c & 0xff) as usize;
        let off = (c >> 8) as usize;
        if n == 2 {
            assert_eq!(&w.grid_indices[off..off + 2], &[1, 2]);
        }
    }
}

#[test]
fn add_remove_and_reuse_slots() {
    let mut w = World::new();
    let a = w.add_brush(cube(0, 0, 0, M as i32, OP_ADD)).unwrap();
    let b = w.add_brush(cube(5 * M, 0, 0, M as i32, OP_ADD)).unwrap();
    let c = w.add_brush(cube(10 * M, 0, 0, M as i32, OP_ADD)).unwrap();
    assert_eq!((a, b, c), (0, 1, 2));
    assert_eq!(w.get_brush(b), cube(5 * M, 0, 0, M as i32, OP_ADD));

    let removed = w.remove_brush(b).unwrap();
    assert_eq!(removed, cube(5 * M, 0, 0, M as i32, OP_ADD));
    let ids: Vec<u16> = w.active_brushes().iter().map(|(id, _)| *id).collect();
    assert_eq!(ids, vec![0, 2]);
    // The slot is cleared.
    let cleared = w.get_brush(b);
    assert_eq!(cleared.scale, Size3 { x: 0, y: 0, z: 0 });
    assert_eq!(cleared.rot, identity());
    assert_eq!(cleared.op, OP_ADD);

    // The next brush takes the freed slot.
    let d = w.add_brush(Brush { kind: KIND_SPHERE, ..cube(0, 5 * M, 0, M as i32, OP_ADD) }).unwrap();
    assert_eq!(d, 1);
    assert_eq!(w.num_slots(), 3);
    let ids: Vec<u16> = w.active_brushes().iter().map(|(id, _)| *id).collect();
    assert_eq!(ids, vec![0, 1, 2]);
}

#[test]
fn slots_freed_last_are_reused_first() {
    let mut w = World::new();
    for k in 0..4 {
        w.add_brush(cube(k * 3 * M, 0, 0, M as i32, OP_ADD)).unwrap();
    }
    w.remove_brush(1).unwrap();
    w.remove_brush(3).unwrap();
    assert_eq!(w.add_brush(cube(0, 0, 0, M as i32, OP_ADD)).unwrap(), 3);
    assert_eq!(w.add_brush(cube(0, 0, 0, M as i32, OP_ADD)).unwrap(), 1);
    assert_eq!(w.add_brush(cube(0, 0, 0, M as i32, OP_ADD)).unwrap(), 4);
}

#[test]
fn removing_every_brush_clears_the_grid() {
    let mut w = World::new();
    w.add_brush(cube(0, 0, 0, M as i32, OP_ADD)).unwrap();
    w.remove_brush(0).unwrap();
    assert!(w.grid.is_empty());
    assert!(w.grid_indices.is_empty());
    assert_eq!(w.grid_size, [0, 0, 0]);
}

#[test]
fn huge_grid_is_refused() {
    let mut w = World::new();
    // 2000 m on each side: 2002^3 cells do not fit in a u32 count.
    let big = Brush {
        pos: Vec3 { x: 0, y: 0, z: 0 },
        kind: KIND_BOX,
        scale: Size3 { x: 2_000_000_000, y: 2_000_000_000, z: 2_000_000_000 },
        material: 0,
        rot: identity(),
        op: OP_ADD,
    };
    assert_eq!(w.add_brush(big), Err(GridError::TooLarge));
}

#[test]
fn slot_empty_is_the_largest_id() {
    assert_eq!(SLOT_EMPTY, u16::MAX);
}

#[test]
fn comments_and_header_are_kept() {
    let mut w = World::new();
    w.set_header(b"# map\n".to_vec());
    w.set_comment(4, b"\n# four\n".to_vec());
    assert_eq!(w.header, b"# map\n".to_vec());
    assert_eq!(w.comment(4), Some(&b"\n# four\n".to_vec()));
    assert_eq!(w.comment(5), None);
}

#[test]
fn aabb_ignores_negated_scale_and_quaternion() {
    let s: i32 = 759_250_125;
    let b = Brush {
        pos: Vec3 { x: 3 * M, y: -M, z: 0 },
        kind: KIND_BOX,
        scale: Size3 { x: 4_000_000, y: 2_000_000, z: 1_000_000 },
        material: 0,
        rot: Quat { x: 0, y: 0, z: s, w: s },
        op: OP_ADD,
    };
    let negated_scale = Brush { scale: Size3 { x: -4_000_000, y: 2_000_000, z: -1_000_000 }, ..b };
    let negated_rot = Brush { rot: Quat { x: 0, y: 0, z: -s, w: -s }, ..b };
    assert_eq!(negated_scale.get_aabb(), b.get_aabb());
    assert_eq!(negated_rot.get_aabb(), b.get_aabb());
}

#[test]
fn new_world_grid_origin_is_zero() {
    let w = World::new();
    assert_eq!(w.grid_min, Point { x: 0, y: 0, z: 0 });
}

#[test]
fn remove_then_add_restores_grid() {
    let mut w = World::new();
    w.add_brush(cube(0, 0, 0, M as i32, OP_ADD)).unwrap();
    w.add_brush(cube(2 * M, 0, 0, M as i32, OP_SUB)).unwrap();
    w.add_brush(cube(M, M, 0, 2 * M as i32, OP_ADD)).unwrap();
    let (grid, indices, size, min) = (w.grid.clone(), w.grid_indices.clone(), w.grid_size, w.grid_min);
    let b = w.remove_brush(1).unwrap();
    assert_eq!(w.add_brush(b).unwrap(), 1);
    assert_eq!(w.grid, grid);
    assert_eq!(w.grid_indices, indices);
    assert_eq!(w.grid_size, size);
    assert_eq!(w.grid_min, min);
}

#[test]
fn cell_offsets_are_running_sums() {
    let mut w = World::new();
    w.add_brush(cube(0, 0, 0, 3 * M as i32, OP_ADD)).unwrap();
    w.add_brush(cube(M, 0, 0, M as i32, OP_ADD)).unwrap();
    w.add_brush(cube(M, 0, 0, M as i32, OP_SUB)).unwrap();
    let mut sum = 0u32;
    for &c in w.grid.iter() {
        assert_eq!(c >> 8, sum);
        let off = (c >> 8) as usize;
        let list = &w.grid_indices[off..off + (c & 0xff) as usize];
        assert!(list.windows(2).all(|p| p[0] < p[1]));
        // A subtracting brush is never listed first.
        assert!(list.first() != Some(&2));
        sum += c & 0xff;
    }
    assert_eq!(w.grid_indices.len() as u32, sum + sum % 2);
}

#[test]
fn removing_each_brush_of_a_built_world_succeeds() {
    let mut w = World::new();
    w.add_brush(cube(0, 0, 0, M as i32, OP_SUB)).unwrap();
    w.add_brush(cube(5 * M, 0, 0, M as i32, OP_ADD)).unwrap();
    w.add_brush(cube(0, 7 * M, -3 * M, 2 * M as i32, OP_ADD)).unwrap();
    for id in [2u16, 0, 1] {
        let b = w.remove_brush(id).unwrap();
        assert_eq!(b.pos.x, [0, 5 * M, 0][id as usize]);
    }
    assert!(w.active_brushes().is_empty());
    assert!(w.grid.is_empty());
}
