//! Fixed-point geometry of brushes: positions, scales, rotations and the
//! axis-aligned bounding box of a rotated brush.
//!
//! Coordinates are integers counted in micrometres, rotations are unit
//! quaternions whose components are scaled by `QUAT_ONE`.
use vstd::prelude::*;
use vstd::arithmetic::div_mod::{lemma_fundamental_div_mod, lemma_fundamental_div_mod_converse};

verus! {

/// Number of fixed-point units in one metre (one unit is a micrometre).
pub const UNITS_PER_METER: i64 = 1000000;

/// Fixed-point value of 1.0 for quaternion components (2^30).
pub const QUAT_ONE: i32 = 1073741824;

/// Brush kinds
pub const KIND_BOX: u32 = 0;
pub const KIND_CYLINDER: u32 = 1;
pub const KIND_SPHERE: u32 = 2;
pub const KIND_CONE: u32 = 3;
pub const NUM_BRUSH_KINDS: u32 = 4;

/// CSG operations
pub const OP_ADD: u32 = 0;
pub const OP_SUB: u32 = 1;

/// A position in the world, in micrometres.
#[derive(Clone, Copy, Debug, PartialEq, Eq, Structural)]
pub struct Vec3 {
    pub x: i64,
    pub y: i64,
    pub z: i64,
}

/// The full extent of a brush along its local axes, in micrometres.
#[derive(Clone, Copy, Debug, PartialEq, Eq, Structural)]
pub struct Size3 {
    pub x: i32,
    pub y: i32,
    pub z: i32,
}

/// A rotation quaternion (x, y, z, w) with components scaled by `QUAT_ONE`.
#[derive(Clone, Copy, Debug, PartialEq, Eq, Structural)]
pub struct Quat {
    pub x: i32,
    pub y: i32,
    pub z: i32,
    pub w: i32,
}

/// A point with wide coordinates, in micrometres (corners and bounds of brushes).
#[derive(Clone, Copy, Debug, PartialEq, Eq, Structural)]
pub struct Point {
    pub x: i128,
    pub y: i128,
    pub z: i128,
}

/// One solid of the world: an oriented shape that is added to or
/// subtracted from everything added before it.
#[derive(Clone, Copy, Debug, PartialEq, Eq, Structural)]
pub struct Brush {
    pub pos: Vec3,
    pub kind: u32,
    pub scale: Size3,
    pub material: u32,
    pub rot: Quat,
    pub op: u32,
}

/// Integer triple used by the specifications.
pub type Triple = (int, int, int);

pub open spec fn cross(a: Triple, b: Triple) -> Triple {
    (a.1 * b.2 - a.2 * b.1, a.2 * b.0 - a.0 * b.2, a.0 * b.1 - a.1 * b.0)
}

/// `q v q*` multiplied by `QUAT_ONE^2`, i.e. `QUAT_ONE^2 v + 2w (u x v) + 2 u x (u x v)`
/// where `u` is the vector part of `q`.
pub open spec fn rotate_scaled(q: Quat, v: Triple) -> Triple {
    let u = (q.x as int, q.y as int, q.z as int);
    let t = cross(u, v);
    let s = cross(u, t);
    let qq = QUAT_ONE as int * QUAT_ONE as int;
    (
        qq * v.0 + 2 * (q.w * t.0) + 2 * s.0,
        qq * v.1 + 2 * (q.w * t.1) + 2 * s.1,
        qq * v.2 + 2 * (q.w * t.2) + 2 * s.2,
    )
}

/// Sign of corner `i` (0..8) along the axis whose bit is `bit` (1, 2 or 4).
pub open spec fn corner_sign(i: int, bit: int) -> int {
    if (i / bit) % 2 == 0 {
        -1
    } else {
        1
    }
}

/// Corner `i` of the brush in local coordinates, doubled (so `scale` instead of `scale / 2`).
pub open spec fn doubled_local_corner(b: Brush, i: int) -> Triple {
    (
        corner_sign(i, 1) * b.scale.x,
        corner_sign(i, 2) * b.scale.y,
        corner_sign(i, 4) * b.scale.z,
    )
}

/// The divisor that turns a scaled rotation of a doubled corner into micrometres.
pub open spec fn corner_divisor() -> int {
    2 * (QUAT_ONE as int * QUAT_ONE as int)
}

/// Corner `i` (0..8) of the brush in world coordinates: `pos + rot * (scale * (+-1/2))`,
/// rounded down to whole micrometres.
pub open spec fn corner(b: Brush, i: int) -> Triple {
    let r = rotate_scaled(b.rot, doubled_local_corner(b, i));
    (
        b.pos.x + r.0 / corner_divisor(),
        b.pos.y + r.1 / corner_divisor(),
        b.pos.z + r.2 / corner_divisor(),
    )
}

pub open spec fn coord(t: Triple, k: int) -> int {
    if k == 0 {
        t.0
    } else if k == 1 {
        t.1
    } else {
        t.2
    }
}

pub open spec fn min_int(a: int, b: int) -> int {
    if a <= b {
        a
    } else {
        b
    }
}

pub open spec fn max_int(a: int, b: int) -> int {
    if a >= b {
        a
    } else {
        b
    }
}

/// Smallest coordinate `k` among the first `n` corners (n >= 1).
pub open spec fn corners_min(b: Brush, n: nat, k: int) -> int
    decreases n,
{
    if n <= 1 {
        coord(corner(b, 0), k)
    } else {
        min_int(corners_min(b, (n - 1) as nat, k), coord(corner(b, n - 1), k))
    }
}

/// Largest coordinate `k` among the first `n` corners (n >= 1).
pub open spec fn corners_max(b: Brush, n: nat, k: int) -> int
    decreases n,
{
    if n <= 1 {
        coord(corner(b, 0), k)
    } else {
        max_int(corners_max(b, (n - 1) as nat, k), coord(corner(b, n - 1), k))
    }
}

/// Lower corner of the brush's bounding box along axis `k`.
pub open spec fn aabb_lo(b: Brush, k: int) -> int {
    corners_min(b, 8, k)
}

/// Upper corner of the brush's bounding box along axis `k`.
pub open spec fn aabb_hi(b: Brush, k: int) -> int {
    corners_max(b, 8, k)
}

/// Bound on the magnitude of every corner coordinate (2^100).
pub open spec fn coord_bound() -> int {
    0x10000000000000000000000000
}

pub open spec fn point_bounded(p: Point) -> bool {
    &&& -coord_bound() <= p.x <= coord_bound()
    &&& -coord_bound() <= p.y <= coord_bound()
    &&& -coord_bound() <= p.z <= coord_bound()
}

pub open spec fn point_view(p: Point) -> Triple {
    (p.x as int, p.y as int, p.z as int)
}

/// The bounding box of a brush lies between its corners: lower bound at most upper bound.
pub proof fn lemma_corners_min_le_max(b: Brush, n: nat, k: int)
    requires
        n >= 1,
    ensures
        corners_min(b, n, k) <= coord(corner(b, 0), k) <= corners_max(b, n, k),
    decreases n,
{
    if n > 1 {
        lemma_corners_min_le_max(b, (n - 1) as nat, k);
    }
}

/// The lower bound of the corners is one of them and below all of them.
pub proof fn lemma_corners_min_char(b: Brush, n: nat, k: int)
    requires
        n >= 1,
    ensures
        forall|i: int| 0 <= i < n ==> corners_min(b, n, k) <= #[trigger] coord(corner(b, i), k),
        exists|j: int| 0 <= j < n && corners_min(b, n, k) == #[trigger] coord(corner(b, j), k),
    decreases n,
{
    if n > 1 {
        lemma_corners_min_char(b, (n - 1) as nat, k);
        let j = choose|j: int| 0 <= j < n - 1 && corners_min(b, (n - 1) as nat, k) == #[trigger] coord(corner(b, j), k);
        if corners_min(b, n, k) == coord(corner(b, n - 1), k) {
            assert(coord(corner(b, n - 1), k) == corners_min(b, n, k));
        } else {
            assert(coord(corner(b, j), k) == corners_min(b, n, k));
        }
    } else {
        assert(coord(corner(b, 0), k) == corners_min(b, n, k));
    }
}

/// The upper bound of the corners is one of them and above all of them.
pub proof fn lemma_corners_max_char(b: Brush, n: nat, k: int)
    requires
        n >= 1,
    ensures
        forall|i: int| 0 <= i < n ==> corners_max(b, n, k) >= #[trigger] coord(corner(b, i), k),
        exists|j: int| 0 <= j < n && corners_max(b, n, k) == #[trigger] coord(corner(b, j), k),
    decreases n,
{
    if n > 1 {
        lemma_corners_max_char(b, (n - 1) as nat, k);
        let j = choose|j: int| 0 <= j < n - 1 && corners_max(b, (n - 1) as nat, k) == #[trigger] coord(corner(b, j), k);
        if corners_max(b, n, k) == coord(corner(b, n - 1), k) {
            assert(coord(corner(b, n - 1), k) == corners_max(b, n, k));
        } else {
            assert(coord(corner(b, j), k) == corners_max(b, n, k));
        }
    } else {
        assert(coord(corner(b, 0), k) == corners_max(b, n, k));
    }
}

/// Two brushes with the same set of corners have the same bounding box.
proof fn lemma_same_corners_same_box(b: Brush, c: Brush, g: spec_fn(int) -> int)
    requires
        forall|i: int| 0 <= i < 8 ==> 0 <= #[trigger] g(i) < 8 && corner(c, i) == corner(b, g(i)),
        forall|i: int| 0 <= i < 8 ==> #[trigger] g(g(i)) == i,
    ensures
        forall|k: int| aabb_lo(c, k) == aabb_lo(b, k) && aabb_hi(c, k) == aabb_hi(b, k),
{
    assert forall|k: int| aabb_lo(c, k) == aabb_lo(b, k) && aabb_hi(c, k) == aabb_hi(b, k) by {
        lemma_corners_min_char(b, 8, k);
        lemma_corners_min_char(c, 8, k);
        lemma_corners_max_char(b, 8, k);
        lemma_corners_max_char(c, 8, k);
        let jb = choose|j: int| 0 <= j < 8 && corners_min(b, 8, k) == #[trigger] coord(corner(b, j), k);
        let jc = choose|j: int| 0 <= j < 8 && corners_min(c, 8, k) == #[trigger] coord(corner(c, j), k);
        assert(corner(c, g(jb)) == corner(b, g(g(jb))));
        assert(coord(corner(c, g(jb)), k) == coord(corner(b, jb), k));
        assert(corner(c, jc) == corner(b, g(jc)));
        assert(coord(corner(b, g(jc)), k) >= corners_min(b, 8, k));
        let hb = choose|j: int| 0 <= j < 8 && corners_max(b, 8, k) == #[trigger] coord(corner(b, j), k);
        let hc = choose|j: int| 0 <= j < 8 && corners_max(c, 8, k) == #[trigger] coord(corner(c, j), k);
        assert(corner(c, g(hb)) == corner(b, g(g(hb))));
        assert(coord(corner(c, g(hb)), k) == coord(corner(b, hb), k));
        assert(corner(c, hc) == corner(b, g(hc)));
        assert(coord(corner(b, g(hc)), k) <= corners_max(b, 8, k));
    }
}

/// A quaternion and its negation rotate alike.
proof fn lemma_rotate_negated(q: Quat, n: Quat, v: Triple)
    requires
        n.x == -q.x,
        n.y == -q.y,
        n.z == -q.z,
        n.w == -q.w,
    ensures
        rotate_scaled(n, v) == rotate_scaled(q, v),
{
    let (ux, uy, uz) = (q.x as int, q.y as int, q.z as int);
    let (vx, vy, vz) = (v.0, v.1, v.2);
    let t = cross((ux, uy, uz), v);
    let tn = cross((-ux, -uy, -uz), v);
    assert(tn.0 == -t.0 && tn.1 == -t.1 && tn.2 == -t.2) by (nonlinear_arith)
        requires
            t == (uy * vz - uz * vy, uz * vx - ux * vz, ux * vy - uy * vx),
            tn == ((-uy) * vz - (-uz) * vy, (-uz) * vx - (-ux) * vz, (-ux) * vy - (-uy) * vx),
    ;
    let s = cross((ux, uy, uz), t);
    let sn = cross((-ux, -uy, -uz), tn);
    assert(sn == s) by (nonlinear_arith)
        requires
            s == (uy * t.2 - uz * t.1, uz * t.0 - ux * t.2, ux * t.1 - uy * t.0),
            sn == ((-uy) * tn.2 - (-uz) * tn.1, (-uz) * tn.0 - (-ux) * tn.2, (-ux) * tn.1 - (-uy) * tn.0),
            tn.0 == -t.0,
            tn.1 == -t.1,
            tn.2 == -t.2,
    ;
    let w = q.w as int;
    assert((-w) * tn.0 == w * t.0 && (-w) * tn.1 == w * t.1 && (-w) * tn.2 == w * t.2) by (nonlinear_arith)
        requires
            tn.0 == -t.0,
            tn.1 == -t.1,
            tn.2 == -t.2,
    ;
}

/// Law: a brush whose rotation quaternion is negated (the same rotation)
/// has the same bounding box.
pub proof fn law_aabb_negated_rotation(b: Brush, c: Brush)
    requires
        c == (Brush { rot: c.rot, ..b }),
        c.rot.x == -b.rot.x,
        c.rot.y == -b.rot.y,
        c.rot.z == -b.rot.z,
        c.rot.w == -b.rot.w,
    ensures
        forall|k: int| aabb_lo(c, k) == aabb_lo(b, k) && aabb_hi(c, k) == aabb_hi(b, k),
{
    assert forall|i: int| 0 <= i < 8 implies corner(c, i) == corner(b, i) by {
        lemma_rotate_negated(b.rot, c.rot, doubled_local_corner(b, i));
        assert(doubled_local_corner(c, i) == doubled_local_corner(b, i));
    }
    let g = |i: int| i;
    lemma_same_corners_same_box(b, c, g);
}

/// The corner of index `i` with the bits of the axes in `flip` flipped.
pub open spec fn flipped_corner(i: int, fx: bool, fy: bool, fz: bool) -> int {
    let bx = i % 2;
    let by = (i / 2) % 2;
    let bz = (i / 4) % 2;
    (if fx { 1 - bx } else { bx }) + 2 * (if fy { 1 - by } else { by }) + 4 * (if fz { 1 - bz } else { bz })
}

proof fn lemma_flip_signs(i: int, fx: bool, fy: bool, fz: bool)
    requires
        0 <= i < 8,
    ensures
        0 <= flipped_corner(i, fx, fy, fz) < 8,
        flipped_corner(flipped_corner(i, fx, fy, fz), fx, fy, fz) == i,
        corner_sign(flipped_corner(i, fx, fy, fz), 1) == if fx { -corner_sign(i, 1) } else { corner_sign(i, 1) },
        corner_sign(flipped_corner(i, fx, fy, fz), 2) == if fy { -corner_sign(i, 2) } else { corner_sign(i, 2) },
        corner_sign(flipped_corner(i, fx, fy, fz), 4) == if fz { -corner_sign(i, 4) } else { corner_sign(i, 4) },
{
    let bx = i % 2;
    let by = (i / 2) % 2;
    let bz = (i / 4) % 2;
    assert(i == bx + 2 * by + 4 * bz && 0 <= bx < 2 && 0 <= by < 2 && 0 <= bz < 2) by {
        if i == 0 {} else if i == 1 {} else if i == 2 {} else if i == 3 {} else if i == 4 {} else if i == 5 {} else if i == 6 {} else {}
    }
    let cx = if fx { 1 - bx } else { bx };
    let cy = if fy { 1 - by } else { by };
    let cz = if fz { 1 - bz } else { bz };
    let g = cx + 2 * cy + 4 * cz;
    assert(g % 2 == cx && (g / 2) % 2 == cy && (g / 4) % 2 == cz) by {
        assert(0 <= cx < 2 && 0 <= cy < 2 && 0 <= cz < 2);
        if cx == 0 && cy == 0 && cz == 0 {} else if cx == 1 && cy == 0 && cz == 0 {} else if cx == 0 && cy == 1 && cz == 0 {}
        else if cx == 1 && cy == 1 && cz == 0 {} else if cx == 0 && cy == 0 && cz == 1 {} else if cx == 1 && cy == 0 && cz == 1 {}
        else if cx == 0 && cy == 1 && cz == 1 {} else {}
    }
    assert(g / 1 == g);
    assert(i / 1 == i);
}

proof fn lemma_signed(s: int, t: int, x: int, f: bool)
    requires
        s == if f { -t } else { t },
    ensures
        s * x == t * (if f { -x } else { x }),
{
    assert(s * x == t * (if f { -x } else { x })) by (nonlinear_arith)
        requires
            s == if f { -t } else { t },
    ;
}

/// Law: a brush with some of its scale components negated (the same set of
/// corners) has the same bounding box.
pub proof fn law_aabb_negated_scale(b: Brush, c: Brush, fx: bool, fy: bool, fz: bool)
    requires
        c == (Brush { scale: c.scale, ..b }),
        c.scale.x == if fx { -b.scale.x } else { b.scale.x as int },
        c.scale.y == if fy { -b.scale.y } else { b.scale.y as int },
        c.scale.z == if fz { -b.scale.z } else { b.scale.z as int },
    ensures
        forall|k: int| aabb_lo(c, k) == aabb_lo(b, k) && aabb_hi(c, k) == aabb_hi(b, k),
{
    let g = |i: int| flipped_corner(i, fx, fy, fz);
    assert forall|i: int| 0 <= i < 8 implies 0 <= #[trigger] g(i) < 8 && corner(c, i) == corner(b, g(i)) by {
        lemma_flip_signs(i, fx, fy, fz);
        let j = g(i);
        lemma_signed(corner_sign(j, 1), corner_sign(i, 1), b.scale.x as int, fx);
        lemma_signed(corner_sign(j, 2), corner_sign(i, 2), b.scale.y as int, fy);
        lemma_signed(corner_sign(j, 4), corner_sign(i, 4), b.scale.z as int, fz);
        assert(doubled_local_corner(c, i) == doubled_local_corner(b, j));
    }
    assert forall|i: int| 0 <= i < 8 implies #[trigger] g(g(i)) == i by {
        lemma_flip_signs(i, fx, fy, fz);
    }
    lemma_same_corners_same_box(b, c, g);
}

/// Rounded-down division by a positive divisor.
pub fn floor_div(a: i128, d: i128) -> (r: i128)
    requires
        d > 0,
        a > i128::MIN,
    ensures
        r == a / d,
        a >= 0 ==> 0 <= r <= a,
        a < 0 ==> a <= r < 0,
{
    if a >= 0 {
        assert(0 <= a / d <= a) by (nonlinear_arith)
            requires
                a >= 0,
                d > 0,
        ;
        a / d
    } else {
        let m = -a - 1;
        let q = m / d;
        proof {
            lemma_fundamental_div_mod(m as int, d as int);
            let rem = m as int % d as int;
            assert(0 <= rem < d);
            assert(a as int == (-(q as int) - 1) * d + (d - 1 - rem)) by (nonlinear_arith)
                requires
                    m as int == d * (q as int) + rem,
                    a == -m - 1,
            ;
            lemma_fundamental_div_mod_converse(a as int, d as int, -(q as int) - 1, d - 1 - rem);
            assert(0 <= m / d <= m) by (nonlinear_arith)
                requires
                    m >= 0,
                    d > 0,
            ;
        }
        -q - 1
    }
}

/// Rounded-up division by a positive divisor.
pub fn ceil_div(a: i128, d: i128) -> (r: i128)
    requires
        d > 0,
        a > i128::MIN,
        a < i128::MAX,
    ensures
        r == -((-(a as int)) / (d as int)),
{
    let q = floor_div(-a, d);
    -q
}

proof fn lemma_mul_bound(a: int, b: int, ba: int, bb: int)
    requires
        -ba <= a <= ba,
        -bb <= b <= bb,
    ensures
        -(ba * bb) <= a * b <= ba * bb,
{
    assert(-(ba * bb) <= a * b <= ba * bb) by (nonlinear_arith)
        requires
            -ba <= a <= ba,
            -bb <= b <= bb,
    ;
}

/// Scaled rotation of a doubled corner, computed exactly.
fn rotate_scaled_exec(q: Quat, vx: i128, vy: i128, vz: i128) -> (r: (i128, i128, i128))
    requires
        -0x8000_0000 <= vx <= 0x8000_0000,
        -0x8000_0000 <= vy <= 0x8000_0000,
        -0x8000_0000 <= vz <= 0x8000_0000,
    ensures
        (r.0 as int, r.1 as int, r.2 as int) == rotate_scaled(q, (vx as int, vy as int, vz as int)),
        -0x4_0000_0000_0000_0000_0000_0000 <= r.0 <= 0x4_0000_0000_0000_0000_0000_0000,
        -0x4_0000_0000_0000_0000_0000_0000 <= r.1 <= 0x4_0000_0000_0000_0000_0000_0000,
        -0x4_0000_0000_0000_0000_0000_0000 <= r.2 <= 0x4_0000_0000_0000_0000_0000_0000,
{
    let qx = q.x as i128;
    let qy = q.y as i128;
    let qz = q.z as i128;
    let qw = q.w as i128;
    let ghost b31: int = 0x8000_0000;
    let ghost b62: int = 0x4000_0000_0000_0000;
    proof {
        lemma_mul_bound(qy as int, vz as int, b31, b31);
        lemma_mul_bound(qz as int, vy as int, b31, b31);
        lemma_mul_bound(qz as int, vx as int, b31, b31);
        lemma_mul_bound(qx as int, vz as int, b31, b31);
        lemma_mul_bound(qx as int, vy as int, b31, b31);
        lemma_mul_bound(qy as int, vx as int, b31, b31);
    }
    let t0 = qy * vz - qz * vy;
    let t1 = qz * vx - qx * vz;
    let t2 = qx * vy - qy * vx;
    let ghost b63: int = 2 * b62;
    proof {
        lemma_mul_bound(qy as int, t2 as int, b31, b63);
        lemma_mul_bound(qz as int, t1 as int, b31, b63);
        lemma_mul_bound(qz as int, t0 as int, b31, b63);
        lemma_mul_bound(qx as int, t2 as int, b31, b63);
        lemma_mul_bound(qx as int, t1 as int, b31, b63);
        lemma_mul_bound(qy as int, t0 as int, b31, b63);
        lemma_mul_bound(qw as int, t0 as int, b31, b63);
        lemma_mul_bound(qw as int, t1 as int, b31, b63);
        lemma_mul_bound(qw as int, t2 as int, b31, b63);
    }
    let s0 = qy * t2 - qz * t1;
    let s1 = qz * t0 - qx * t2;
    let s2 = qx * t1 - qy * t0;
    let qq: i128 = 0x1000_0000_0000_0000;
    assert(qq as int == QUAT_ONE as int * QUAT_ONE as int);
    let ghost b60: int = 0x1000_0000_0000_0000;
    proof {
        lemma_mul_bound(qq as int, vx as int, b60, b31);
        lemma_mul_bound(qq as int, vy as int, b60, b31);
        lemma_mul_bound(qq as int, vz as int, b60, b31);
        assert(b31 * b63 == 0x4000_0000_0000_0000_0000_0000);
        assert(b60 * b31 == 0x800_0000_0000_0000_0000_0000);
    }
    let r0 = qq * vx + 2 * (qw * t0) + 2 * s0;
    let r1 = qq * vy + 2 * (qw * t1) + 2 * s1;
    let r2 = qq * vz + 2 * (qw * t2) + 2 * s2;
    (r0, r1, r2)
}

impl Brush {
    /// World position of corner `i` (0..8) of the brush.
    pub fn corner(&self, i: u32) -> (p: Point)
        requires
            i < 8,
        ensures
            point_view(p) == corner(*self, i as int),
            point_bounded(p),
    {
        let sx = self.scale.x as i128;
        let sy = self.scale.y as i128;
        let sz = self.scale.z as i128;
        let vx = if i % 2 == 0 { -sx } else { sx };
        let vy = if (i / 2) % 2 == 0 { -sy } else { sy };
        let vz = if (i / 4) % 2 == 0 { -sz } else { sz };
        assert((vx as int, vy as int, vz as int) == doubled_local_corner(*self, i as int));
        let r = rotate_scaled_exec(self.rot, vx, vy, vz);
        let d: i128 = 0x2000_0000_0000_0000;
        assert(d as int == corner_divisor());
        let px = self.pos.x as i128 + floor_div(r.0, d);
        let py = self.pos.y as i128 + floor_div(r.1, d);
        let pz = self.pos.z as i128 + floor_div(r.2, d);
        Point { x: px, y: py, z: pz }
    }

    /// Axis-aligned bounding box (lower corner, upper corner) of the rotated brush.
    pub fn get_aabb(&self) -> (r: (Point, Point))
        ensures
            r.0.x == aabb_lo(*self, 0),
            r.0.y == aabb_lo(*self, 1),
            r.0.z == aabb_lo(*self, 2),
            r.1.x == aabb_hi(*self, 0),
            r.1.y == aabb_hi(*self, 1),
            r.1.z == aabb_hi(*self, 2),
            point_bounded(r.0),
            point_bounded(r.1),
    {
        let first = self.corner(0);
        let mut min = first;
        let mut max = first;
        let mut i: u32 = 1;
        while i < 8
            invariant
                1 <= i <= 8,
                min.x == corners_min(*self, i as nat, 0),
                min.y == corners_min(*self, i as nat, 1),
                min.z == corners_min(*self, i as nat, 2),
                max.x == corners_max(*self, i as nat, 0),
                max.y == corners_max(*self, i as nat, 1),
                max.z == corners_max(*self, i as nat, 2),
                point_bounded(min),
                point_bounded(max),
            decreases 8 - i,
        {
            let p = self.corner(i);
            if p.x < min.x {
                min.x = p.x;
            }
            if p.y < min.y {
                min.y = p.y;
            }
            if p.z < min.z {
                min.z = p.z;
            }
            if p.x > max.x {
                max.x = p.x;
            }
            if p.y > max.y {
                max.y = p.y;
            }
            if p.z > max.z {
                max.z = p.z;
            }
            i = i + 1;
        }
        (min, max)
    }
}

} // verus!
