//! Rotations as quaternion conjugation: what the scaled corner rotation of
//! the geometry computes, in terms of Hamilton products.
use vstd::prelude::*;
use crate::geometry::{Quat, Triple, QUAT_ONE, cross, rotate_scaled};

verus! {

/// Hamilton product of two quaternions given as `(x, y, z, w)`.
pub open spec fn quat_mul(a: (int, int, int, int), b: (int, int, int, int)) -> (int, int, int, int) {
    (
        a.3 * b.0 + a.0 * b.3 + a.1 * b.2 - a.2 * b.1,
        a.3 * b.1 + a.1 * b.3 + a.2 * b.0 - a.0 * b.2,
        a.3 * b.2 + a.2 * b.3 + a.0 * b.1 - a.1 * b.0,
        a.3 * b.3 - a.0 * b.0 - a.1 * b.1 - a.2 * b.2,
    )
}

proof fn lemma_mono(p: int, q: int, r: int)
    ensures
        (p * q) * r == (p * r) * q,
        (p * q) * r == (r * p) * q,
        p * (q * r) == (q * p) * r,
{
    assert((p * q) * r == (p * r) * q) by (nonlinear_arith);
    assert((p * q) * r == (r * p) * q) by (nonlinear_arith);
    assert(p * (q * r) == (q * p) * r) by (nonlinear_arith);
}

proof fn lemma_spread(p: int, q: int, r: int, k: int)
    ensures
        (-p - q - r) * (-k) == p * k + q * k + r * k,
        (p + q - r) * k == p * k + q * k - r * k,
        (p + q - r) * (-k) == -(p * k) - q * k + r * k,
        (-p - q - r) * k == -(p * k) - q * k - r * k,
        k * (p - q) == k * p - k * q,
{
    assert((-p - q - r) * (-k) == p * k + q * k + r * k) by (nonlinear_arith);
    assert((p + q - r) * k == p * k + q * k - r * k) by (nonlinear_arith);
    assert((p + q - r) * (-k) == -(p * k) - q * k + r * k) by (nonlinear_arith);
    assert((-p - q - r) * k == -(p * k) - q * k - r * k) by (nonlinear_arith);
    assert(k * (p - q) == k * p - k * q) by (nonlinear_arith);
}

proof fn lemma_spread4(k: int, p: int, q: int, r: int, s: int, a: int)
    ensures
        (k - (p + q + r + s)) * a == k * a - p * a - q * a - r * a - s * a,
{
    assert((k - (p + q + r + s)) * a == k * a - p * a - q * a - r * a - s * a) by (nonlinear_arith);
}

/// First component of `q v q*` against the scaled rotation (the other two
/// follow by turning the axes round).
proof fn lemma_component(x: int, y: int, z: int, w: int, a: int, b: int, c: int, k: int)
    ensures
        k * a + 2 * (w * (y * c - z * b)) + 2 * (y * (x * b - y * a) - z * (z * a - x * c))
            == (-(x * a) - y * b - z * c) * (-x) + (w * a + y * c - z * b) * w + (w * b + z * a - x * c) * (-z)
            - (w * c + x * b - y * a) * (-y) + (k - (x * x + y * y + z * z + w * w)) * a,
{
    lemma_spread(x * a, y * b, z * c, x);
    lemma_spread(w * a, y * c, z * b, w);
    lemma_spread(w * b, z * a, x * c, z);
    lemma_spread(w * c, x * b, y * a, y);
    lemma_spread4(k, x * x, y * y, z * z, w * w, a);
    lemma_spread(y * c, z * b, 0, w);
    lemma_spread(x * b, y * a, 0, y);
    lemma_spread(z * a, x * c, 0, z);
    lemma_mono(x, a, x);
    lemma_mono(y, b, x);
    lemma_mono(z, c, x);
    lemma_mono(w, a, w);
    lemma_mono(y, c, w);
    lemma_mono(z, b, w);
    lemma_mono(w, b, z);
    lemma_mono(z, a, z);
    lemma_mono(x, c, z);
    lemma_mono(w, c, y);
    lemma_mono(x, b, y);
    lemma_mono(y, a, y);
    lemma_mono(w, y, c);
    lemma_mono(w, z, b);
    lemma_mono(y, x, b);
    lemma_mono(y, y, a);
    lemma_mono(z, z, a);
    lemma_mono(z, x, c);
}

/// The scalar part of `q v q*` vanishes.
proof fn lemma_scalar(x: int, y: int, z: int, w: int, a: int, b: int, c: int)
    ensures
        (-(x * a) - y * b - z * c) * w - (w * a + y * c - z * b) * (-x) - (w * b + z * a - x * c) * (-y)
            - (w * c + x * b - y * a) * (-z) == 0,
{
    lemma_spread(x * a, y * b, z * c, w);
    lemma_spread(w * a, y * c, z * b, x);
    lemma_spread(w * b, z * a, x * c, y);
    lemma_spread(w * c, x * b, y * a, z);
    lemma_mono(x, a, w);
    lemma_mono(w, a, x);
    lemma_mono(y, b, w);
    lemma_mono(w, b, y);
    lemma_mono(z, c, w);
    lemma_mono(w, c, z);
    lemma_mono(y, c, x);
    lemma_mono(x, c, y);
    lemma_mono(z, b, x);
    lemma_mono(x, b, z);
    lemma_mono(z, a, y);
    lemma_mono(y, a, z);
}

/// Law: a corner direction `v` is turned by conjugation, `q v q*` (Hamilton
/// products, `v` as a pure quaternion). The scaled rotation is `q v q*`
/// plus `(QUAT_ONE^2 - |q|^2) v`, the part that vanishes for a unit
/// quaternion; so for a unit `q` it is exactly `q v q*`, and a quarter turn
/// `(s, 0, 0, s)` about X sends `+Y` to `+Z`.
pub proof fn law_rotation_is_conjugation(q: Quat, v: Triple)
    ensures
        ({
            let (x, y, z, w) = (q.x as int, q.y as int, q.z as int, q.w as int);
            let p = quat_mul(quat_mul((x, y, z, w), (v.0, v.1, v.2, 0)), (-x, -y, -z, w));
            let n = x * x + y * y + z * z + w * w;
            let d = QUAT_ONE as int * QUAT_ONE as int - n;
            &&& p.3 == 0
            &&& rotate_scaled(q, v) == (p.0 + d * v.0, p.1 + d * v.1, p.2 + d * v.2)
            &&& n == QUAT_ONE as int * QUAT_ONE as int ==> rotate_scaled(q, v) == (p.0, p.1, p.2)
        }),
{
    let (x, y, z, w) = (q.x as int, q.y as int, q.z as int, q.w as int);
    let (a, b, c) = (v.0, v.1, v.2);
    let m = quat_mul((x, y, z, w), (a, b, c, 0));
    let p = quat_mul(m, (-x, -y, -z, w));
    let n = x * x + y * y + z * z + w * w;
    let qq = QUAT_ONE as int * QUAT_ONE as int;
    let d = qq - n;
    let t = cross((x, y, z), v);
    let s = cross((x, y, z), t);
    let r = rotate_scaled(q, v);
    assert(qq == 1152921504606846976);
    assert(m.0 == w * a + y * c - z * b);
    assert(m.1 == w * b + z * a - x * c);
    assert(m.2 == w * c + x * b - y * a);
    assert(m.3 == -(x * a) - y * b - z * c);
    assert(t.0 == y * c - z * b);
    assert(t.1 == z * a - x * c);
    assert(t.2 == x * b - y * a);
    // The scalar part
    lemma_scalar(x, y, z, w, a, b, c);
    assert(m.3 * w == (-(x * a) - y * b - z * c) * w);
    assert(m.0 * (-x) == (w * a + y * c - z * b) * (-x));
    assert(m.1 * (-y) == (w * b + z * a - x * c) * (-y));
    assert(m.2 * (-z) == (w * c + x * b - y * a) * (-z));
    assert(p.3 == 0);
    // First component
    lemma_component(x, y, z, w, a, b, c, 1152921504606846976);
    assert(qq * a == 1152921504606846976 * a);
    assert(d == 1152921504606846976 - (x * x + y * y + z * z + w * w));
    assert(d * a == (1152921504606846976 - (x * x + y * y + z * z + w * w)) * a);
    assert(w * t.0 == w * (y * c - z * b));
    assert(y * t.2 == y * (x * b - y * a));
    assert(z * t.1 == z * (z * a - x * c));
    assert(m.3 * (-x) == (-(x * a) - y * b - z * c) * (-x));
    assert(m.0 * w == (w * a + y * c - z * b) * w);
    assert(m.1 * (-z) == (w * b + z * a - x * c) * (-z));
    assert(m.2 * (-y) == (w * c + x * b - y * a) * (-y));
    assert(r.0 == p.0 + d * a);
    // Second component
    lemma_component(y, z, x, w, b, c, a, 1152921504606846976);
    assert(m.3 == -(y * b) - z * c - x * a);
    assert(m.1 == w * b + z * a - x * c);
    assert(m.2 == w * c + x * b - y * a);
    assert(m.0 == w * a + y * c - z * b);
    assert(qq * b == 1152921504606846976 * b);
    assert(d == 1152921504606846976 - (y * y + z * z + x * x + w * w));
    assert(d * b == (1152921504606846976 - (y * y + z * z + x * x + w * w)) * b);
    assert(w * t.1 == w * (z * a - x * c));
    assert(z * t.0 == z * (y * c - z * b));
    assert(x * t.2 == x * (x * b - y * a));
    assert(m.3 * (-y) == (-(y * b) - z * c - x * a) * (-y));
    assert(m.1 * w == (w * b + z * a - x * c) * w);
    assert(m.2 * (-x) == (w * c + x * b - y * a) * (-x));
    assert(m.0 * (-z) == (w * a + y * c - z * b) * (-z));
    assert(r.1 == p.1 + d * b);
    // Third component
    lemma_component(z, x, y, w, c, a, b, 1152921504606846976);
    assert(m.3 == -(z * c) - x * a - y * b);
    assert(qq * c == 1152921504606846976 * c);
    assert(d == 1152921504606846976 - (z * z + x * x + y * y + w * w));
    assert(d * c == (1152921504606846976 - (z * z + x * x + y * y + w * w)) * c);
    assert(w * t.2 == w * (x * b - y * a));
    assert(x * t.1 == x * (z * a - x * c));
    assert(y * t.0 == y * (y * c - z * b));
    assert(m.3 * (-z) == (-(z * c) - x * a - y * b) * (-z));
    assert(m.2 * w == (w * c + x * b - y * a) * w);
    assert(m.0 * (-y) == (w * a + y * c - z * b) * (-y));
    assert(m.1 * (-x) == (w * b + z * a - x * c) * (-x));
    assert(r.2 == p.2 + d * c);
    // A unit quaternion
    if n == qq {
        assert(d * a == 0 && d * b == 0 && d * c == 0) by (nonlinear_arith)
            requires
                d == 0,
        ;
    }
}

} // verus!
