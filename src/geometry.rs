use vstd::prelude::*;
use crate::vector::{
    add_spec, bounded, cross, cross_spec, dot, dot_spec, scale_spec, sub_spec, subtract, v3,
    Vec3, V3, COORD_LIMIT,
};

verus! {

/// `SCALE` cubed: a determinant of this many units equals one in scene units.
pub const DET_UNIT: i128 = 1152921504606846976;

/// A determinant is treated as zero when its scene value is below
/// `1 / EPS_INV` (that is, below one millionth).
pub const EPS_INV: i128 = 1000000;

/// Bound on the numerator and denominator of a ray parameter: three times
/// `DIFF_LIMIT * CROSS_LIMIT`.
pub const T_LIMIT: i128 = 3802951800684688204490109616128;

/// A triangle given by its three vertices; `v0` is the corner that the two
/// edges start from.
#[derive(Clone, Copy, Debug, PartialEq, Eq, Structural)]
pub struct Triangle {
    pub v0: Vec3,
    pub v1: Vec3,
    pub v2: Vec3,
}

impl Triangle {
    /// Every vertex component lies within `COORD_LIMIT`.
    pub open spec fn wf(&self) -> bool {
        bounded(self.v0@, COORD_LIMIT as int) && bounded(self.v1@, COORD_LIMIT as int)
            && bounded(self.v2@, COORD_LIMIT as int)
    }

    pub fn new(v0: Vec3, v1: Vec3, v2: Vec3) -> (r: Triangle)
        ensures
            r.v0 == v0 && r.v1 == v1 && r.v2 == v2,
    {
        Triangle { v0, v1, v2 }
    }
}

/// An exact ray parameter `num / den`, with `den > 0`.
#[derive(Clone, Copy, Debug, PartialEq, Eq, Structural)]
pub struct Ratio {
    pub num: i128,
    pub den: i128,
}

impl Ratio {
    pub open spec fn view(&self) -> (int, int) {
        (self.num as int, self.den as int)
    }
}

pub open spec fn edge1(tri: Triangle) -> V3 {
    sub_spec(tri.v1@, tri.v0@)
}

pub open spec fn edge2(tri: Triangle) -> V3 {
    sub_spec(tri.v2@, tri.v0@)
}

/// The determinant `E1 · (D × E2)` of the ray direction against the triangle.
pub open spec fn det_spec(d: V3, tri: Triangle) -> int {
    dot_spec(edge1(tri), cross_spec(d, edge2(tri)))
}

/// The direction is parallel to the triangle's plane, up to the threshold.
pub open spec fn parallel(det: int) -> bool {
    (if det < 0 { -det } else { det }) * EPS_INV < DET_UNIT
}

/// The "no intersection" value: a parameter of zero.
pub open spec fn miss() -> (int, int) {
    (0, 1)
}

/// Möller–Trumbore: the parameter `t` at which the ray meets the triangle,
/// with the determinant's sign moved into the numerators so that the
/// denominator is positive; `miss()` when parallel or outside.
pub open spec fn intersect_spec(o: V3, d: V3, tri: Triangle) -> (int, int) {
    let e1 = edge1(tri);
    let e2 = edge2(tri);
    let p = cross_spec(d, e2);
    let det = dot_spec(e1, p);
    if parallel(det) {
        miss()
    } else {
        let s: int = if det < 0 { -1 } else { 1 };
        let t = sub_spec(o, tri.v0@);
        let q = cross_spec(t, e1);
        let den = s * det;
        let u = s * dot_spec(p, t);
        let v = s * dot_spec(d, q);
        if u < 0 || u > den || v < 0 || u + v > den {
            miss()
        } else {
            (s * dot_spec(e2, q), den)
        }
    }
}

/// Computes where the ray `o + t·d` meets `tri`, as an exact parameter, or
/// zero when it does not.
pub fn intersect(o: Vec3, d: Vec3, tri: &Triangle) -> (r: Ratio)
    requires
        bounded(o@, COORD_LIMIT as int),
        bounded(d@, COORD_LIMIT as int),
        tri.wf(),
    ensures
        r@ == intersect_spec(o@, d@, *tri),
        0 < r.den <= T_LIMIT,
        -T_LIMIT <= r.num <= T_LIMIT,
        parallel(det_spec(d@, *tri)) ==> r.num == 0,
{
    let e1 = subtract(tri.v1, tri.v0);
    let e2 = subtract(tri.v2, tri.v0);
    let p = cross(d, e2);
    let det = dot(e1, p);
    let adet = if det < 0 { -det } else { det };
    if adet * EPS_INV < DET_UNIT {
        return Ratio { num: 0, den: 1 };
    }
    let s: i128 = if det < 0 { -1 } else { 1 };
    let t = subtract(o, tri.v0);
    let den = s * det;
    let u = s * dot(p, t);
    if u < 0 || u > den {
        return Ratio { num: 0, den: 1 };
    }
    let q = cross(t, e1);
    let v = s * dot(d, q);
    if v < 0 || u + v > den {
        return Ratio { num: 0, den: 1 };
    }
    Ratio { num: s * dot(e2, q), den }
}

/// The ray point at parameter `num / den` lies in the triangle: scaled by
/// `den`, it is `den·V0 + u·E1 + w·E2` for barycentric numerators `u, w`
/// with `u, w >= 0` and `u + w <= den`.
pub open spec fn on_triangle(o: V3, d: V3, tri: Triangle, num: int, den: int) -> bool {
    den > 0 && exists|u: int, w: int|
        #![trigger scale_spec(u, edge1(tri)), scale_spec(w, edge2(tri))]
        0 <= u && 0 <= w && u + w <= den && add_spec(scale_spec(den, o), scale_spec(num, d))
            == add_spec(
            scale_spec(den, tri.v0@),
            add_spec(scale_spec(u, edge1(tri)), scale_spec(w, edge2(tri))),
        )
}

/// One component of Cramer's rule for `[-D, E1, E2]·(t, u, v) = T`, where
/// `p = D × E2` and `q = T × E1`.
proof fn lemma_cramer_component(
    tx: int, ty: int, tz: int,
    dx: int, dy: int, dz: int,
    ax: int, ay: int, az: int,
    bx: int, by: int, bz: int,
    px: int, py: int, pz: int,
    qx: int, qy: int, qz: int,
)
    requires
        px == dy * bz - dz * by,
        py == dz * bx - dx * bz,
        pz == dx * by - dy * bx,
        qx == ty * az - tz * ay,
        qy == tz * ax - tx * az,
        qz == tx * ay - ty * ax,
    ensures
        (ax * px + ay * py + az * pz) * tx + (bx * qx + by * qy + bz * qz) * dx
            == (px * tx + py * ty + pz * tz) * ax + (dx * qx + dy * qy + dz * qz) * bx,
{
    assert((ax * px + ay * py + az * pz) * tx == ax * px * tx + ay * py * tx + az * pz * tx)
        by (nonlinear_arith);
    assert((bx * qx + by * qy + bz * qz) * dx == bx * qx * dx + by * qy * dx + bz * qz * dx)
        by (nonlinear_arith);
    assert((px * tx + py * ty + pz * tz) * ax == px * tx * ax + py * ty * ax + pz * tz * ax)
        by (nonlinear_arith);
    assert((dx * qx + dy * qy + dz * qz) * bx == dx * qx * bx + dy * qy * bx + dz * qz * bx)
        by (nonlinear_arith);
    assert(py * (ay * tx - ax * ty) == ay * py * tx - py * ty * ax) by (nonlinear_arith);
    assert(pz * (az * tx - ax * tz) == az * pz * tx - pz * tz * ax) by (nonlinear_arith);
    assert(qy * (by * dx - bx * dy) == by * qy * dx - dy * qy * bx) by (nonlinear_arith);
    assert(qz * (bz * dx - bx * dz) == bz * qz * dx - dz * qz * bx) by (nonlinear_arith);
    assert(ax * px * tx == px * tx * ax) by (nonlinear_arith);
    assert(bx * qx * dx == dx * qx * bx) by (nonlinear_arith);
    assert(ay * tx - ax * ty == qz) by (nonlinear_arith)
        requires
            qz == tx * ay - ty * ax,
    ;
    assert(az * tx - ax * tz == -qy) by (nonlinear_arith)
        requires
            qy == tz * ax - tx * az,
    ;
    assert(py * qz + pz * (-qy) + qy * (by * dx - bx * dy) + qz * (bz * dx - bx * dz) == qz * (py
        + bz * dx - bx * dz) + qy * (by * dx - bx * dy - pz)) by (nonlinear_arith);
    assert(py + bz * dx - bx * dz == 0) by (nonlinear_arith)
        requires
            py == dz * bx - dx * bz,
    ;
    assert(by * dx - bx * dy - pz == 0) by (nonlinear_arith)
        requires
            pz == dx * by - dy * bx,
    ;
}

/// Cramer's rule for the system that intersect solves: with `T = O - V0`,
/// `det·T + c·D == a·E1 + b·E2`, component by component.
proof fn lemma_cramer(o: V3, d: V3, tri: Triangle)
    ensures
        ({
            let e1 = edge1(tri);
            let e2 = edge2(tri);
            let t = sub_spec(o, tri.v0@);
            let p = cross_spec(d, e2);
            let q = cross_spec(t, e1);
            let det = dot_spec(e1, p);
            let a = dot_spec(p, t);
            let b = dot_spec(d, q);
            let c = dot_spec(e2, q);
            &&& det * t.x + c * d.x == a * e1.x + b * e2.x
            &&& det * t.y + c * d.y == a * e1.y + b * e2.y
            &&& det * t.z + c * d.z == a * e1.z + b * e2.z
        }),
{
    let e1 = edge1(tri);
    let e2 = edge2(tri);
    let t = sub_spec(o, tri.v0@);
    let p = cross_spec(d, e2);
    let q = cross_spec(t, e1);
    lemma_cramer_component(
        t.x, t.y, t.z, d.x, d.y, d.z, e1.x, e1.y, e1.z, e2.x, e2.y, e2.z,
        p.x, p.y, p.z, q.x, q.y, q.z,
    );
    lemma_cramer_component(
        t.y, t.z, t.x, d.y, d.z, d.x, e1.y, e1.z, e1.x, e2.y, e2.z, e2.x,
        p.y, p.z, p.x, q.y, q.z, q.x,
    );
    lemma_cramer_component(
        t.z, t.x, t.y, d.z, d.x, d.y, e1.z, e1.x, e1.y, e2.z, e2.x, e2.y,
        p.z, p.x, p.y, q.z, q.x, q.y,
    );
}

proof fn lemma_scaled_component(s: int, det: int, t: int, c: int, d: int, a: int, e1: int, b: int, e2: int)
    requires
        det * t + c * d == a * e1 + b * e2,
    ensures
        (s * det) * t + (s * c) * d == (s * a) * e1 + (s * b) * e2,
{
    assert(s * (det * t + c * d) == s * (a * e1 + b * e2));
    assert((s * det) * t + (s * c) * d == s * (det * t + c * d)) by (nonlinear_arith);
    assert((s * a) * e1 + (s * b) * e2 == s * (a * e1 + b * e2)) by (nonlinear_arith);
}

proof fn lemma_shift(k: int, o: int, v: int, c: int, d: int, u: int, e: int, w: int, f: int)
    requires
        k * (o - v) + c * d == u * e + w * f,
    ensures
        k * o + c * d == k * v + (u * e + w * f),
{
    assert(k * (o - v) == k * o - k * v) by (nonlinear_arith);
}

/// Where the direction is not parallel to the triangle's plane, `intersect`
/// either reports no intersection or a parameter `t` whose ray point
/// `o + t·d` lies in the plane of the triangle, with barycentric coordinates
/// in `[0, 1]` that sum to at most one.
pub proof fn lemma_intersection_on_triangle(o: V3, d: V3, tri: Triangle)
    requires
        !parallel(det_spec(d, tri)),
    ensures
        intersect_spec(o, d, tri) == miss() || on_triangle(
            o,
            d,
            tri,
            intersect_spec(o, d, tri).0,
            intersect_spec(o, d, tri).1,
        ),
{
    let e1 = edge1(tri);
    let e2 = edge2(tri);
    let t = sub_spec(o, tri.v0@);
    let p = cross_spec(d, e2);
    let q = cross_spec(t, e1);
    let det = dot_spec(e1, p);
    let s: int = if det < 0 { -1 } else { 1 };
    let a = dot_spec(p, t);
    let b = dot_spec(d, q);
    let c = dot_spec(e2, q);
    let r = intersect_spec(o, d, tri);
    if r != miss() {
        lemma_cramer(o, d, tri);
        lemma_scaled_component(s, det, t.x, c, d.x, a, e1.x, b, e2.x);
        lemma_scaled_component(s, det, t.y, c, d.y, a, e1.y, b, e2.y);
        lemma_scaled_component(s, det, t.z, c, d.z, a, e1.z, b, e2.z);
        let u = s * a;
        let w = s * b;
        assert(s * det > 0);
        lemma_shift(s * det, o.x, tri.v0@.x, s * c, d.x, u, e1.x, w, e2.x);
        lemma_shift(s * det, o.y, tri.v0@.y, s * c, d.y, u, e1.y, w, e2.y);
        lemma_shift(s * det, o.z, tri.v0@.z, s * c, d.z, u, e1.z, w, e2.z);
        assert(add_spec(scale_spec(r.1, o), scale_spec(r.0, d)) == add_spec(
            scale_spec(r.1, tri.v0@),
            add_spec(scale_spec(u, e1), scale_spec(w, e2)),
        ));
        assert(0 <= u && 0 <= w && u + w <= r.1);
    }
}

/// The normal `E1 × E2` of the triangle's plane.
pub open spec fn normal(tri: Triangle) -> V3 {
    cross_spec(edge1(tri), edge2(tri))
}

proof fn lemma_normal_orthogonal(ax: int, ay: int, az: int, bx: int, by: int, bz: int, u: int, w: int)
    ensures
        ({
            let n = cross_spec(v3(ax, ay, az), v3(bx, by, bz));
            n.x * (u * ax + w * bx) + n.y * (u * ay + w * by) + n.z * (u * az + w * bz) == 0
        }),
{
    let nx = ay * bz - az * by;
    let ny = az * bx - ax * bz;
    let nz = ax * by - ay * bx;
    assert(nx * ax + ny * ay + nz * az == 0) by (nonlinear_arith)
        requires
            nx == ay * bz - az * by,
            ny == az * bx - ax * bz,
            nz == ax * by - ay * bx,
    ;
    assert(nx * bx + ny * by + nz * bz == 0) by (nonlinear_arith)
        requires
            nx == ay * bz - az * by,
            ny == az * bx - ax * bz,
            nz == ax * by - ay * bx,
    ;
    lemma_combine(nx, ny, nz, ax, ay, az, bx, by, bz, u, w);
}

proof fn lemma_combine(
    nx: int, ny: int, nz: int,
    ax: int, ay: int, az: int,
    bx: int, by: int, bz: int,
    u: int, w: int,
)
    ensures
        nx * (u * ax + w * bx) + ny * (u * ay + w * by) + nz * (u * az + w * bz) == u * (nx * ax
            + ny * ay + nz * az) + w * (nx * bx + ny * by + nz * bz),
{
    assert(nx * (u * ax + w * bx) == u * (nx * ax) + w * (nx * bx)) by (nonlinear_arith);
    assert(ny * (u * ay + w * by) == u * (ny * ay) + w * (ny * by)) by (nonlinear_arith);
    assert(nz * (u * az + w * bz) == u * (nz * az) + w * (nz * bz)) by (nonlinear_arith);
    assert(u * (nx * ax + ny * ay + nz * az) == u * (nx * ax) + u * (ny * ay) + u * (nz * az))
        by (nonlinear_arith);
    assert(w * (nx * bx + ny * by + nz * bz) == w * (nx * bx) + w * (ny * by) + w * (nz * bz))
        by (nonlinear_arith);
}

proof fn lemma_shift_back(k: int, o: int, v: int, c: int, d: int, r: int)
    requires
        k * o + c * d == k * v + r,
    ensures
        k * (o - v) + c * d == r,
{
    assert(k * (o - v) == k * o - k * v) by (nonlinear_arith);
}

/// Where the direction is not parallel to the triangle's plane and
/// `intersect` reports a parameter `t = num / den`, the ray point lies in the
/// plane: `N · (den·(O − V0) + num·D) == 0` for the normal `N = E1 × E2`.
pub proof fn lemma_intersection_in_plane(o: V3, d: V3, tri: Triangle)
    requires
        !parallel(det_spec(d, tri)),
    ensures
        intersect_spec(o, d, tri) == miss() || dot_spec(
            normal(tri),
            add_spec(
                scale_spec(intersect_spec(o, d, tri).1, sub_spec(o, tri.v0@)),
                scale_spec(intersect_spec(o, d, tri).0, d),
            ),
        ) == 0,
{
    let r = intersect_spec(o, d, tri);
    lemma_intersection_on_triangle(o, d, tri);
    if r != miss() {
        let (u, w) = choose|u: int, w: int|
            #![trigger scale_spec(u, edge1(tri)), scale_spec(w, edge2(tri))]
            0 <= u && 0 <= w && u + w <= r.1 && add_spec(scale_spec(r.1, o), scale_spec(r.0, d))
                == add_spec(
                scale_spec(r.1, tri.v0@),
                add_spec(scale_spec(u, edge1(tri)), scale_spec(w, edge2(tri))),
            );
        let e1 = edge1(tri);
        let e2 = edge2(tri);
        let v0 = tri.v0@;
        lemma_shift_back(r.1, o.x, v0.x, r.0, d.x, u * e1.x + w * e2.x);
        lemma_shift_back(r.1, o.y, v0.y, r.0, d.y, u * e1.y + w * e2.y);
        lemma_shift_back(r.1, o.z, v0.z, r.0, d.z, u * e1.z + w * e2.z);
        lemma_normal_orthogonal(e1.x, e1.y, e1.z, e2.x, e2.y, e2.z, u, w);
    }
}

/// The triangle lies in the ground plane `z = 0`.
pub open spec fn in_ground_plane(tri: Triangle) -> bool {
    tri.v0.z == 0 && tri.v1.z == 0 && tri.v2.z == 0
}

/// A hit on a ground-plane triangle lies at the parameter where the ray
/// reaches height zero: `t · (−d.z) == o.z`.
pub proof fn lemma_ground_hit_distance(o: V3, d: V3, tri: Triangle)
    requires
        in_ground_plane(tri),
        intersect_spec(o, d, tri) != miss(),
    ensures
        intersect_spec(o, d, tri).0 * (-d.z) == intersect_spec(o, d, tri).1 * o.z,
        intersect_spec(o, d, tri).1 > 0,
{
    let r = intersect_spec(o, d, tri);
    lemma_intersection_on_triangle(o, d, tri);
    let (u, w) = choose|u: int, w: int|
        #![trigger scale_spec(u, edge1(tri)), scale_spec(w, edge2(tri))]
        0 <= u && 0 <= w && u + w <= r.1 && add_spec(scale_spec(r.1, o), scale_spec(r.0, d))
            == add_spec(
            scale_spec(r.1, tri.v0@),
            add_spec(scale_spec(u, edge1(tri)), scale_spec(w, edge2(tri))),
        );
    assert(edge1(tri).z == 0 && edge2(tri).z == 0);
    assert(r.1 * o.z + r.0 * d.z == r.1 * 0 + (u * 0 + w * 0));
    assert(r.0 * (-d.z) == -(r.0 * d.z)) by (nonlinear_arith);
}

/// A ray from above the ground plane that does not descend meets no
/// ground-plane triangle at a strictly positive parameter.
pub proof fn lemma_ground_not_ahead(o: V3, d: V3, tri: Triangle)
    requires
        in_ground_plane(tri),
        o.z > 0,
        d.z >= 0,
    ensures
        intersect_spec(o, d, tri).0 <= 0,
{
    let r = intersect_spec(o, d, tri);
    if r != miss() {
        lemma_ground_hit_distance(o, d, tri);
        assert(r.1 > 0);
        assert(r.1 * o.z > 0) by (nonlinear_arith)
            requires
                r.1 > 0,
                o.z > 0,
        ;
        assert(r.0 <= 0) by (nonlinear_arith)
            requires
                r.0 * (-d.z) > 0,
                d.z >= 0,
        ;
    }
}

} // verus!
