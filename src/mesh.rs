use vstd::prelude::*;
use crate::vector::{bounded, Vec3, COORD_LIMIT};
use crate::geometry::Triangle;
use crate::scene::mesh_wf;

verus! {

/// One record of a geometry description, in file order: a vertex with its
/// coordinates as declared, or a face with three 1-based vertex indices.
#[derive(Clone, Copy, Debug, PartialEq, Eq, Structural)]
pub enum GeometryRecord {
    Vertex(Vec3),
    Face(usize, usize, usize),
}

/// Why a geometry description was rejected, with the position of the record.
#[derive(Clone, Copy, Debug, PartialEq, Eq, Structural)]
pub enum MeshError {
    /// A vertex component lies outside `COORD_LIMIT`.
    CoordinateOutOfRange(usize),
    /// A face names an index that no earlier vertex record declared.
    UndeclaredVertex(usize),
}

/// One hundred scene units.
pub const FLOOR_EXTENT: i128 = 104857600;

/// Minus one hundred scene units.
pub const FLOOR_BACK: i128 = -104857600;

/// The background plane appended after every mesh.
pub open spec fn floor_spec() -> Triangle {
    Triangle {
        v0: Vec3 { x: FLOOR_EXTENT, y: 0, z: 0 },
        v1: Vec3 { x: FLOOR_BACK, y: FLOOR_BACK, z: 0 },
        v2: Vec3 { x: FLOOR_BACK, y: FLOOR_EXTENT, z: 0 },
    }
}

/// The background plane: `(100, 0, 0), (-100, -100, 0), (-100, 100, 0)`.
pub fn floor_triangle() -> (r: Triangle)
    ensures
        r == floor_spec(),
        r.wf(),
{
    Triangle {
        v0: Vec3 { x: FLOOR_EXTENT, y: 0, z: 0 },
        v1: Vec3 { x: FLOOR_BACK, y: FLOOR_BACK, z: 0 },
        v2: Vec3 { x: FLOOR_BACK, y: FLOOR_EXTENT, z: 0 },
    }
}

/// A vertex as stored: its first two declared coordinates swap places.
pub open spec fn stored_vertex(p: Vec3) -> Vec3 {
    Vec3 { x: p.y, y: p.x, z: p.z }
}

pub open spec fn index_ok(i: usize, n: int) -> bool {
    1 <= i <= n
}

/// The vertices declared so far and the triangles built so far, after
/// reading the records in order; the first bad record is reported.
pub open spec fn load_spec(recs: Seq<GeometryRecord>) -> Result<(Seq<Vec3>, Seq<Triangle>), MeshError>
    decreases recs.len(),
{
    if recs.len() == 0 {
        Ok((Seq::empty(), Seq::empty()))
    } else {
        match load_spec(recs.drop_last()) {
            Err(e) => Err(e),
            Ok((vs, ts)) => match recs.last() {
                GeometryRecord::Vertex(p) => if bounded(p@, COORD_LIMIT as int) {
                    Ok((vs.push(stored_vertex(p)), ts))
                } else {
                    Err(MeshError::CoordinateOutOfRange((recs.len() - 1) as usize))
                },
                GeometryRecord::Face(a, b, c) => if index_ok(a, vs.len() as int) && index_ok(
                    b,
                    vs.len() as int,
                ) && index_ok(c, vs.len() as int) {
                    Ok(
                        (
                            vs,
                            ts.push(
                                Triangle { v0: vs[a - 1], v1: vs[b - 1], v2: vs[c - 1] },
                            ),
                        ),
                    )
                } else {
                    Err(MeshError::UndeclaredVertex((recs.len() - 1) as usize))
                },
            },
        }
    }
}

proof fn lemma_load_err_extends(recs: Seq<GeometryRecord>, k: int)
    requires
        0 <= k <= recs.len(),
        load_spec(recs.subrange(0, k)) is Err,
    ensures
        load_spec(recs) == load_spec(recs.subrange(0, k)),
    decreases recs.len() - k,
{
    if k < recs.len() {
        assert(recs.subrange(0, k + 1).drop_last() =~= recs.subrange(0, k));
        lemma_load_err_extends(recs, k + 1);
    } else {
        assert(recs.subrange(0, k) =~= recs);
    }
}

/// Builds the mesh that a geometry description declares, in record order,
/// and appends the background plane.
pub fn assemble_mesh(recs: &Vec<GeometryRecord>) -> (r: Result<Vec<Triangle>, MeshError>)
    ensures
        match r {
            Ok(mesh) => load_spec(recs@) is Ok && mesh@ == load_spec(recs@)->Ok_0.1.push(
                floor_spec(),
            ) && mesh_wf(mesh@),
            Err(e) => load_spec(recs@) == Err::<(Seq<Vec3>, Seq<Triangle>), MeshError>(e),
        },
{
    let n = recs.len();
    let mut verts: Vec<Vec3> = Vec::new();
    let mut tris: Vec<Triangle> = Vec::new();
    let mut k: usize = 0;
    while k < n
        invariant
            n == recs@.len(),
            0 <= k <= n,
            load_spec(recs@.subrange(0, k as int)) == Ok::<(Seq<Vec3>, Seq<Triangle>), MeshError>(
                (verts@, tris@),
            ),
            forall|m: int| 0 <= m < verts@.len() ==> bounded(#[trigger] verts@[m]@, COORD_LIMIT as int),
            mesh_wf(tris@),
        decreases n - k,
    {
        assert(recs@.subrange(0, k as int + 1).drop_last() =~= recs@.subrange(0, k as int));
        assert(recs@.subrange(0, k as int + 1).last() == recs@[k as int]);
        match recs[k] {
            GeometryRecord::Vertex(p) => {
                if p.x < -COORD_LIMIT || p.x > COORD_LIMIT || p.y < -COORD_LIMIT || p.y
                    > COORD_LIMIT || p.z < -COORD_LIMIT || p.z > COORD_LIMIT {
                    proof {
                        lemma_load_err_extends(recs@, k as int + 1);
                    }
                    return Err(MeshError::CoordinateOutOfRange(k));
                }
                verts.push(Vec3 { x: p.y, y: p.x, z: p.z });
            },
            GeometryRecord::Face(a, b, c) => {
                let nv = verts.len();
                if a < 1 || a > nv || b < 1 || b > nv || c < 1 || c > nv {
                    proof {
                        lemma_load_err_extends(recs@, k as int + 1);
                    }
                    return Err(MeshError::UndeclaredVertex(k));
                }
                tris.push(Triangle { v0: verts[a - 1], v1: verts[b - 1], v2: verts[c - 1] });
            },
        }
        k = k + 1;
    }
    assert(recs@.subrange(0, n as int) =~= recs@);
    let fl = floor_triangle();
    tris.push(fl);
    Ok(tris)
}

} // verus!
