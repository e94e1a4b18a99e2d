use vstd::prelude::*;

verus! {

/// Fixed-point units per scene unit.
pub const SCALE: i128 = 1048576;

/// Largest magnitude of a point or direction component (4096 scene units).
pub const COORD_LIMIT: i128 = 4294967296;

/// Bound on the components of a difference of two bounded points.
pub const DIFF_LIMIT: i128 = 8589934592;

/// Bound on the components of a cross product of two differences.
pub const CROSS_LIMIT: i128 = 147573952589676412928;

/// A point or direction, with components in fixed-point units.
#[derive(Clone, Copy, Debug, PartialEq, Eq, Structural)]
pub struct Vec3 {
    pub x: i128,
    pub y: i128,
    pub z: i128,
}

/// The mathematical value of a `Vec3`.
pub struct V3 {
    pub x: int,
    pub y: int,
    pub z: int,
}

impl Vec3 {
    pub open spec fn view(&self) -> V3 {
        V3 { x: self.x as int, y: self.y as int, z: self.z as int }
    }

    pub fn new(x: i128, y: i128, z: i128) -> (r: Vec3)
        ensures
            r.x == x && r.y == y && r.z == z,
    {
        Vec3 { x, y, z }
    }
}

pub open spec fn v3(x: int, y: int, z: int) -> V3 {
    V3 { x, y, z }
}

/// Every component lies in `[-b, b]`.
pub open spec fn bounded(a: V3, b: int) -> bool {
    -b <= a.x <= b && -b <= a.y <= b && -b <= a.z <= b
}

pub open spec fn sub_spec(a: V3, b: V3) -> V3 {
    v3(a.x - b.x, a.y - b.y, a.z - b.z)
}

pub open spec fn add_spec(a: V3, b: V3) -> V3 {
    v3(a.x + b.x, a.y + b.y, a.z + b.z)
}

pub open spec fn scale_spec(k: int, a: V3) -> V3 {
    v3(k * a.x, k * a.y, k * a.z)
}

pub open spec fn cross_spec(a: V3, b: V3) -> V3 {
    v3(a.y * b.z - a.z * b.y, a.z * b.x - a.x * b.z, a.x * b.y - a.y * b.x)
}

pub open spec fn dot_spec(a: V3, b: V3) -> int {
    a.x * b.x + a.y * b.y + a.z * b.z
}

pub open spec fn square_spec(a: V3) -> V3 {
    v3(a.x * a.x, a.y * a.y, a.z * a.z)
}

pub open spec fn sum_spec(a: V3) -> int {
    a.x + a.y + a.z
}

proof fn lemma_mul_bound(a: int, b: int, ba: int, bb: int)
    requires
        -ba <= a <= ba,
        -bb <= b <= bb,
    ensures
        -(ba * bb) <= a * b <= ba * bb,
{
    assert(-(ba * bb) <= a * b <= ba * bb) by (nonlinear_arith)
        requires
            -ba <= a <= ba,
            -bb <= b <= bb,
    ;
}

/// Component-wise difference `a - b`.
pub fn subtract(a: Vec3, b: Vec3) -> (r: Vec3)
    requires
        bounded(a@, COORD_LIMIT as int),
        bounded(b@, COORD_LIMIT as int),
    ensures
        r@ == sub_spec(a@, b@),
        bounded(r@, DIFF_LIMIT as int),
{
    Vec3 { x: a.x - b.x, y: a.y - b.y, z: a.z - b.z }
}

/// Cross product `a × b`.
pub fn cross(a: Vec3, b: Vec3) -> (r: Vec3)
    requires
        bounded(a@, DIFF_LIMIT as int),
        bounded(b@, DIFF_LIMIT as int),
    ensures
        r@ == cross_spec(a@, b@),
        bounded(r@, CROSS_LIMIT as int),
{
    proof {
        let l = DIFF_LIMIT as int;
        lemma_mul_bound(a.y as int, b.z as int, l, l);
        lemma_mul_bound(a.z as int, b.y as int, l, l);
        lemma_mul_bound(a.z as int, b.x as int, l, l);
        lemma_mul_bound(a.x as int, b.z as int, l, l);
        lemma_mul_bound(a.x as int, b.y as int, l, l);
        lemma_mul_bound(a.y as int, b.x as int, l, l);
    }
    Vec3 {
        x: a.y * b.z - a.z * b.y,
        y: a.z * b.x - a.x * b.z,
        z: a.x * b.y - a.y * b.x,
    }
}

/// Inner product of a difference and a cross product.
pub fn dot(a: Vec3, b: Vec3) -> (r: i128)
    requires
        (bounded(a@, DIFF_LIMIT as int) && bounded(b@, CROSS_LIMIT as int)) || (bounded(
            a@,
            CROSS_LIMIT as int,
        ) && bounded(b@, DIFF_LIMIT as int)),
    ensures
        r == dot_spec(a@, b@),
        -3 * DIFF_LIMIT * CROSS_LIMIT <= r <= 3 * DIFF_LIMIT * CROSS_LIMIT,
{
    proof {
        let l = DIFF_LIMIT as int;
        let c = CROSS_LIMIT as int;
        if bounded(a@, l) && bounded(b@, c) {
            lemma_mul_bound(a.x as int, b.x as int, l, c);
            lemma_mul_bound(a.y as int, b.y as int, l, c);
            lemma_mul_bound(a.z as int, b.z as int, l, c);
        } else {
            lemma_mul_bound(a.x as int, b.x as int, c, l);
            lemma_mul_bound(a.y as int, b.y as int, c, l);
            lemma_mul_bound(a.z as int, b.z as int, c, l);
        }
    }
    a.x * b.x + a.y * b.y + a.z * b.z
}

/// Component-wise square.
pub fn square(a: Vec3) -> (r: Vec3)
    requires
        bounded(a@, DIFF_LIMIT as int),
    ensures
        r@ == square_spec(a@),
        0 <= r.x <= DIFF_LIMIT * DIFF_LIMIT,
        0 <= r.y <= DIFF_LIMIT * DIFF_LIMIT,
        0 <= r.z <= DIFF_LIMIT * DIFF_LIMIT,
{
    proof {
        let l = DIFF_LIMIT as int;
        assert(forall|v: int| -l <= v <= l ==> 0 <= #[trigger] (v * v) <= l * l) by {
            assert forall|v: int| -l <= v <= l implies 0 <= #[trigger] (v * v) <= l * l by {
                lemma_mul_bound(v, v, l, l);
                assert(0 <= v * v) by (nonlinear_arith);
            }
        }
    }
    Vec3 { x: a.x * a.x, y: a.y * a.y, z: a.z * a.z }
}

/// Sum of the components.
pub fn sum(a: Vec3) -> (r: i128)
    requires
        bounded(a@, DIFF_LIMIT * DIFF_LIMIT),
    ensures
        r == sum_spec(a@),
{
    a.x + a.y + a.z
}

} // verus!
