//! The mesh model consumed by the renderer: fixed-point vertex, texture and
//! normal coordinates, and faces as ordered triples of index groups.

use crate::geometry::{Vec2, Vec3, FIXED_ONE};
use vstd::prelude::*;

verus! {

/// Bound on the magnitude of a fixed-point texture coordinate.
pub const UV_LIMIT: i64 = 1048576;

/// One corner of a face: indices into the vertex, texture-coordinate and
/// normal arrays (0-based).
#[derive(Clone, Copy, Debug, PartialEq, Eq, Structural)]
pub struct FaceIndex {
    pub vertex: usize,
    pub uv: usize,
    pub normal: usize,
}

/// A triangulated mesh: fixed-point attribute arrays and triangle faces.
pub struct Model {
    pub verts: Vec<Vec3>,
    pub uvs: Vec<Vec2>,
    pub normals: Vec<Vec3>,
    pub faces: Vec<[FaceIndex; 3]>,
}

impl Model {
    /// Well-formedness: every face index addresses its attribute array,
    /// vertex coordinates lie in the normalized cube `[-1, 1]` (fixed
    /// point), and texture coordinates are bounded.
    pub open spec fn wf(self) -> bool {
        &&& forall|i: int, j: int|
            0 <= i < self.faces@.len() && 0 <= j < 3 ==> {
                &&& (#[trigger] self.faces@[i]@[j]).vertex < self.verts@.len()
                &&& self.faces@[i]@[j].uv < self.uvs@.len()
                &&& self.faces@[i]@[j].normal < self.normals@.len()
            }
        &&& forall|i: int|
            0 <= i < self.verts@.len() ==> {
                &&& -FIXED_ONE <= (#[trigger] self.verts@[i]).x <= FIXED_ONE
                &&& -FIXED_ONE <= self.verts@[i].y <= FIXED_ONE
                &&& -FIXED_ONE <= self.verts@[i].z <= FIXED_ONE
            }
        &&& forall|i: int|
            0 <= i < self.uvs@.len() ==> {
                &&& -UV_LIMIT <= (#[trigger] self.uvs@[i]).x <= UV_LIMIT
                &&& -UV_LIMIT <= self.uvs@[i].y <= UV_LIMIT
            }
    }

    /// Builds a mesh after validating every face index and coordinate
    /// bound; yields nothing when any check fails.
    pub fn new(
        verts: Vec<Vec3>,
        uvs: Vec<Vec2>,
        normals: Vec<Vec3>,
        faces: Vec<[FaceIndex; 3]>,
    ) -> (r: Option<Model>)
        ensures
            match r {
                Some(m) => {
                    &&& m.wf()
                    &&& m.verts@ == verts@
                    &&& m.uvs@ == uvs@
                    &&& m.normals@ == normals@
                    &&& m.faces@ == faces@
                },
                None => true,
            },
    {
        let nv = verts.len();
        let nu = uvs.len();
        let nn = normals.len();
        let mut i: usize = 0;
        while i < verts.len()
            invariant
                forall|k: int|
                    0 <= k < i ==> {
                        &&& -FIXED_ONE <= (#[trigger] verts@[k]).x <= FIXED_ONE
                        &&& -FIXED_ONE <= verts@[k].y <= FIXED_ONE
                        &&& -FIXED_ONE <= verts@[k].z <= FIXED_ONE
                    },
            decreases verts.len() - i,
        {
            let v = verts[i];
            if v.x < -FIXED_ONE || v.x > FIXED_ONE || v.y < -FIXED_ONE || v.y > FIXED_ONE || v.z
                < -FIXED_ONE || v.z > FIXED_ONE {
                return None;
            }
            i += 1;
        }
        let mut i: usize = 0;
        while i < uvs.len()
            invariant
                forall|k: int|
                    0 <= k < i ==> {
                        &&& -UV_LIMIT <= (#[trigger] uvs@[k]).x <= UV_LIMIT
                        &&& -UV_LIMIT <= uvs@[k].y <= UV_LIMIT
                    },
            decreases uvs.len() - i,
        {
            let t = uvs[i];
            if t.x < -UV_LIMIT || t.x > UV_LIMIT || t.y < -UV_LIMIT || t.y > UV_LIMIT {
                return None;
            }
            i += 1;
        }
        let mut i: usize = 0;
        while i < faces.len()
            invariant
                nv == verts@.len(),
                nu == uvs@.len(),
                nn == normals@.len(),
                forall|k: int, j: int|
                    0 <= k < i && 0 <= j < 3 ==> {
                        &&& (#[trigger] faces@[k]@[j]).vertex < verts@.len()
                        &&& faces@[k]@[j].uv < uvs@.len()
                        &&& faces@[k]@[j].normal < normals@.len()
                    },
            decreases faces.len() - i,
        {
            let f = &faces[i];
            let mut j: usize = 0;
            while j < 3
                invariant
                    nv == verts@.len(),
                    nu == uvs@.len(),
                    nn == normals@.len(),
                    f == &faces@[i as int],
                    0 <= i < faces@.len(),
                    forall|jj: int|
                        0 <= jj < j ==> {
                            &&& (#[trigger] faces@[i as int]@[jj]).vertex < verts@.len()
                            &&& faces@[i as int]@[jj].uv < uvs@.len()
                            &&& faces@[i as int]@[jj].normal < normals@.len()
                        },
                decreases 3 - j,
            {
                let g = f[j];
                if g.vertex >= nv || g.uv >= nu || g.normal >= nn {
                    return None;
                }
                j += 1;
            }
            i += 1;
        }
        Some(Model { verts, uvs, normals, faces })
    }

    /// The number of vertices.
    pub fn nverts(&self) -> (n: usize)
        ensures
            n == self.verts@.len(),
    {
        self.verts.len()
    }

    /// The number of faces.
    pub fn nfaces(&self) -> (n: usize)
        ensures
            n == self.faces@.len(),
    {
        self.faces.len()
    }

    /// The vertex at index `idx`.
    pub fn vert(&self, idx: usize) -> (v: Vec3)
        requires
            idx < self.verts@.len(),
        ensures
            v == self.verts@[idx as int],
    {
        self.verts[idx]
    }

    /// The texture coordinate at index `idx`.
    pub fn uv(&self, idx: usize) -> (t: Vec2)
        requires
            idx < self.uvs@.len(),
        ensures
            t == self.uvs@[idx as int],
    {
        self.uvs[idx]
    }

    /// The normal at index `idx`.
    pub fn normal(&self, idx: usize) -> (v: Vec3)
        requires
            idx < self.normals@.len(),
        ensures
            v == self.normals@[idx as int],
    {
        self.normals[idx]
    }

    /// The face at index `idx`.
    pub fn face(&self, idx: usize) -> (f: &[FaceIndex; 3])
        requires
            idx < self.faces@.len(),
        ensures
            f == &self.faces@[idx as int],
    {
        &self.faces[idx]
    }
}

} // verus!
