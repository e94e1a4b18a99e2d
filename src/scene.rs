use vstd::prelude::*;
use crate::vector::{
    bounded, square, square_spec, sub_spec, subtract, sum, sum_spec, Vec3, V3, COORD_LIMIT,
};
use crate::geometry::{intersect, intersect_spec, Ratio, Triangle, T_LIMIT};

verus! {

broadcast use vstd::seq_lib::group_to_multiset_ensures;

/// The distance reported for a ray that meets no triangle.
pub const BACKGROUND: i128 = 1000;

/// Every triangle of the mesh is well formed.
pub open spec fn mesh_wf(mesh: Seq<Triangle>) -> bool {
    forall|k: int| 0 <= k < mesh.len() ==> #[trigger] mesh[k].wf()
}

/// The parameter of the first triangle, in sequence order, that the ray
/// meets at a strictly positive parameter; `(BACKGROUND, 1)` when none does.
pub open spec fn cast_spec(mesh: Seq<Triangle>, o: V3, d: V3) -> (int, int)
    decreases mesh.len(),
{
    if mesh.len() == 0 {
        (BACKGROUND as int, 1)
    } else {
        let t = intersect_spec(o, d, mesh[0]);
        if t.0 > 0 {
            t
        } else {
            cast_spec(mesh.drop_first(), o, d)
        }
    }
}

/// Casts the ray `o + t·d` against the mesh in order and returns the first
/// strictly positive parameter found, or `BACKGROUND`.
pub fn cast(mesh: &Vec<Triangle>, o: Vec3, d: Vec3) -> (r: Ratio)
    requires
        mesh_wf(mesh@),
        bounded(o@, COORD_LIMIT as int),
        bounded(d@, COORD_LIMIT as int),
    ensures
        r@ == cast_spec(mesh@, o@, d@),
        0 < r.den <= T_LIMIT,
        -T_LIMIT <= r.num <= T_LIMIT,
{
    let n = mesh.len();
    let mut i: usize = 0;
    assert(mesh@.subrange(0, n as int) =~= mesh@);
    while i < n
        invariant
            n == mesh@.len(),
            0 <= i <= n,
            mesh_wf(mesh@),
            bounded(o@, COORD_LIMIT as int),
            bounded(d@, COORD_LIMIT as int),
            cast_spec(mesh@, o@, d@) == cast_spec(mesh@.subrange(i as int, n as int), o@, d@),
        decreases n - i,
    {
        let t = intersect(o, d, &mesh[i]);
        assert(mesh@.subrange(i as int, n as int)[0] == mesh@[i as int]);
        assert(mesh@.subrange(i as int, n as int).drop_first() =~= mesh@.subrange(
            i as int + 1,
            n as int,
        ));
        if t.num > 0 {
            return t;
        }
        i = i + 1;
    }
    Ratio { num: BACKGROUND, den: 1 }
}

/// A ray that meets no triangle at a strictly positive parameter gets the
/// background distance.
pub proof fn lemma_cast_background(mesh: Seq<Triangle>, o: V3, d: V3)
    requires
        forall|k: int| 0 <= k < mesh.len() ==> (#[trigger] intersect_spec(o, d, mesh[k])).0 <= 0,
    ensures
        cast_spec(mesh, o, d) == (BACKGROUND as int, 1int),
    decreases mesh.len(),
{
    if mesh.len() > 0 {
        assert(intersect_spec(o, d, mesh[0]).0 <= 0);
        assert forall|k: int| 0 <= k < mesh.drop_first().len() implies (#[trigger] intersect_spec(
            o,
            d,
            mesh.drop_first()[k],
        )).0 <= 0 by {
            assert(mesh.drop_first()[k] == mesh[k + 1]);
        }
        lemma_cast_background(mesh.drop_first(), o, d);
    }
}

/// The first triangle in mesh order with a strictly positive parameter
/// decides the result, whatever the later triangles hold, nearer or not.
pub proof fn lemma_cast_first_hit(mesh: Seq<Triangle>, o: V3, d: V3, k: int)
    requires
        0 <= k < mesh.len(),
        intersect_spec(o, d, mesh[k]).0 > 0,
        forall|m: int| 0 <= m < k ==> (#[trigger] intersect_spec(o, d, mesh[m])).0 <= 0,
    ensures
        cast_spec(mesh, o, d) == intersect_spec(o, d, mesh[k]),
    decreases k,
{
    if k > 0 {
        assert(intersect_spec(o, d, mesh[0]).0 <= 0);
        assert(mesh.drop_first()[k - 1] == mesh[k]);
        assert forall|m: int| 0 <= m < k - 1 implies (#[trigger] intersect_spec(
            o,
            d,
            mesh.drop_first()[m],
        )).0 <= 0 by {
            assert(mesh.drop_first()[m] == mesh[m + 1]);
        }
        lemma_cast_first_hit(mesh.drop_first(), o, d, k - 1);
    }
}

/// The depth key of a triangle: the squared distance from the camera to its
/// first vertex, in scene units, rounded down.
pub open spec fn depth_key_spec(tri: Triangle, camera: V3) -> int {
    sum_spec(square_spec(sub_spec(tri.v0@, camera))) / (crate::vector::SCALE * crate::vector::SCALE)
}

/// Computes the depth key of `tri` seen from `camera`.
pub fn depth_key(tri: &Triangle, camera: Vec3) -> (r: i128)
    requires
        tri.wf(),
        bounded(camera@, COORD_LIMIT as int),
    ensures
        r == depth_key_spec(*tri, camera@),
        r >= 0,
{
    let diff = subtract(tri.v0, camera);
    let sq = square(diff);
    let total = sum(sq);
    total / (crate::vector::SCALE * crate::vector::SCALE)
}

/// The mesh is in ascending order of depth key.
pub open spec fn depth_sorted(mesh: Seq<Triangle>, camera: V3) -> bool {
    forall|a: int, b: int|
        0 <= a < b < mesh.len() ==> depth_key_spec(#[trigger] mesh[a], camera) <= depth_key_spec(
            #[trigger] mesh[b],
            camera,
        )
}

proof fn lemma_swap_multiset(s: Seq<Triangle>, j: int)
    requires
        0 < j < s.len(),
    ensures
        s.update(j - 1, s[j]).update(j, s[j - 1]).to_multiset() =~= s.to_multiset(),
{
    broadcast use vstd::multiset::group_multiset_properties;
    broadcast use vstd::seq_lib::to_multiset_update;

    let s1 = s.update(j - 1, s[j]);
    assert(s1[j] == s[j]);
    assert(s1.to_multiset() == s.to_multiset().insert(s[j]).remove(s[j - 1]));
    assert(s1.update(j, s[j - 1]).to_multiset() == s1.to_multiset().insert(s[j - 1]).remove(s[j]));
}

/// Sorts the mesh in ascending order of depth key seen from `camera`, so that
/// nearer triangles are tried first. A mesh that is already in order is
/// left as it is, so sorting twice gives the same mesh as sorting once.
pub fn depth_sort(mesh: &mut Vec<Triangle>, camera: Vec3)
    requires
        mesh_wf(old(mesh)@),
        bounded(camera@, COORD_LIMIT as int),
    ensures
        final(mesh)@.to_multiset() == old(mesh)@.to_multiset(),
        depth_sorted(final(mesh)@, camera@),
        mesh_wf(final(mesh)@),
        depth_sorted(old(mesh)@, camera@) ==> final(mesh)@ == old(mesh)@,
{
    let ghost orig = mesh@;
    let n = mesh.len();
    let mut i: usize = 1;
    if n == 0 {
        return;
    }
    while i < n
        invariant
            n == mesh@.len(),
            1 <= i <= n,
            mesh_wf(mesh@),
            bounded(camera@, COORD_LIMIT as int),
            mesh@.to_multiset() == orig.to_multiset(),
            depth_sorted(mesh@.subrange(0, i as int), camera@),
            depth_sorted(orig, camera@) ==> mesh@ == orig,
        decreases n - i,
    {
        let mut j: usize = i;
        proof {
            assert forall|a: int, b: int|
                0 <= a < b < i implies depth_key_spec(#[trigger] mesh@[a], camera@)
                    <= depth_key_spec(#[trigger] mesh@[b], camera@) by {
                assert(mesh@.subrange(0, i as int)[a] == mesh@[a]);
                assert(mesh@.subrange(0, i as int)[b] == mesh@[b]);
            }
            if depth_sorted(orig, camera@) {
                assert(depth_key_spec(mesh@[i - 1], camera@) <= depth_key_spec(
                    mesh@[i as int],
                    camera@,
                ));
            }
        }
        while j > 0
            invariant
                n == mesh@.len(),
                0 <= j <= i < n,
                mesh_wf(mesh@),
                bounded(camera@, COORD_LIMIT as int),
                mesh@.to_multiset() == orig.to_multiset(),
                forall|a: int, b: int|
                    0 <= a < b <= i && a != j && b != j ==> depth_key_spec(#[trigger] mesh@[a], camera@)
                        <= depth_key_spec(#[trigger] mesh@[b], camera@),
                forall|b: int|
                    j < b <= i ==> depth_key_spec(mesh@[j as int], camera@) < depth_key_spec(
                        #[trigger] mesh@[b],
                        camera@,
                    ),
                depth_sorted(orig, camera@) ==> mesh@ == orig && j == i,
            ensures
                j == 0 || depth_key_spec(mesh@[j - 1], camera@) <= depth_key_spec(
                    mesh@[j as int],
                    camera@,
                ),
            decreases j,
        {
            let kp = depth_key(&mesh[j - 1], camera);
            let kj = depth_key(&mesh[j], camera);
            if kp <= kj {
                break;
            }
            let prev = mesh[j - 1];
            let cur = mesh[j];
            proof {
                lemma_swap_multiset(mesh@, j as int);
            }
            mesh.set(j - 1, cur);
            mesh.set(j, prev);
            j = j - 1;
        }
        proof {
            assert forall|a: int, b: int|
                0 <= a < b < i + 1 implies depth_key_spec(
                #[trigger] mesh@.subrange(0, i as int + 1)[a],
                camera@,
            ) <= depth_key_spec(#[trigger] mesh@.subrange(0, i as int + 1)[b], camera@) by {
                assert(mesh@.subrange(0, i as int + 1)[a] == mesh@[a]);
                assert(mesh@.subrange(0, i as int + 1)[b] == mesh@[b]);
                if b == j && a < j - 1 {
                    assert(depth_key_spec(mesh@[a], camera@) <= depth_key_spec(
                        mesh@[j - 1],
                        camera@,
                    ));
                }
            }
        }
        i = i + 1;
    }
    assert(mesh@.subrange(0, n as int) =~= mesh@);
}

} // verus!
