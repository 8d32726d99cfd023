//! Welding a triangle soup into an indexed mesh: one vertex per distinct
//! corner identifier, in the order identifiers are first seen.
use std::collections::HashMap;
use vstd::prelude::*;

verus! {

broadcast use vstd::std_specs::hash::group_hash_axioms;

/// A triangle of the soup: three corner positions, and for each corner an
/// identifier shared by every corner that is the same vertex.
#[derive(Debug)]
pub struct Triangle<P> {
    pub position: [P; 3],
    pub id: [u64; 3],
}

/// The identifier of every corner, triangle by triangle.
pub open spec fn corner_ids<P>(tris: Seq<Triangle<P>>) -> Seq<u64> {
    Seq::new((3 * tris.len()) as nat, |c: int| tris[c / 3].id@[c % 3])
}

/// The position of every corner, triangle by triangle.
pub open spec fn corner_positions<P>(tris: Seq<Triangle<P>>) -> Seq<P> {
    Seq::new((3 * tris.len()) as nat, |c: int| tris[c / 3].position@[c % 3])
}

/// The distinct identifiers of `ids`, in the order they are first seen.
pub open spec fn weld_ids(ids: Seq<u64>) -> Seq<u64>
    decreases ids.len(),
{
    if ids.len() == 0 {
        Seq::empty()
    } else {
        let w = weld_ids(ids.drop_last());
        if w.contains(ids.last()) {
            w
        } else {
            w.push(ids.last())
        }
    }
}

/// The positions of the first corners of each distinct identifier, in the
/// order the identifiers are first seen.
pub open spec fn weld_positions<P>(ids: Seq<u64>, pos: Seq<P>) -> Seq<P>
    decreases ids.len(),
{
    if ids.len() == 0 {
        Seq::empty()
    } else {
        let w = weld_positions(ids.drop_last(), pos.drop_last());
        if weld_ids(ids.drop_last()).contains(ids.last()) {
            w
        } else {
            w.push(pos.last())
        }
    }
}

/// An indexed mesh: vertices with their identifiers, faces as triples of
/// vertex indices, and, once computed, one normal per vertex.
#[derive(Debug)]
pub struct Mesh<P> {
    ids: Vec<u64>,
    vertex: Vec<P>,
    faces: Vec<[usize; 3]>,
    normals: Option<Vec<P>>,
}

impl<P> Mesh<P> {
    pub closed spec fn ids_view(&self) -> Seq<u64> {
        self.ids@
    }

    pub closed spec fn vertex_view(&self) -> Seq<P> {
        self.vertex@
    }

    pub closed spec fn faces_view(&self) -> Seq<[usize; 3]> {
        self.faces@
    }

    pub closed spec fn normals_view(&self) -> Option<Seq<P>> {
        match self.normals {
            Some(n) => Some(n@),
            None => None,
        }
    }

    /// Every face corner names a vertex, and there is one identifier per
    /// vertex (and one normal per vertex, once there are normals).
    pub open spec fn wf(&self) -> bool {
        &&& self.ids_view().len() == self.vertex_view().len()
        &&& forall|t: int, j: int|
            0 <= t < self.faces_view().len() && 0 <= j < 3 ==> (#[trigger] self.faces_view()[t]@[j])
                < self.vertex_view().len()
        &&& match self.normals_view() {
            Some(n) => n.len() == self.vertex_view().len(),
            None => true,
        }
    }
}

impl<P: Copy> Mesh<P> {
    /// Welds `triangles`: each distinct identifier becomes one vertex, in the
    /// order identifiers are first seen, at the position of its first
    /// corner; each triangle becomes a face of the vertices of its corners.
    pub fn from_triangles(triangles: &Vec<Triangle<P>>) -> (r: Mesh<P>)
        requires
            3 * triangles@.len() <= usize::MAX,
        ensures
            r.wf(),
            r.ids_view() == weld_ids(corner_ids(triangles@)),
            r.vertex_view() == weld_positions(corner_ids(triangles@), corner_positions(triangles@)),
            r.ids_view().no_duplicates(),
            r.faces_view().len() == triangles@.len(),
            forall|t: int, j: int|
                0 <= t < triangles@.len() && 0 <= j < 3 ==> r.ids_view()[(
                #[trigger] r.faces_view()[t]@[j]) as int] == triangles@[t].id@[j],
            r.normals_view() is None,
    {
        let ghost cids = corner_ids(triangles@);
        let ghost cpos = corner_positions(triangles@);
        let mut id_to_index: HashMap<u64, usize> = HashMap::new();
        let mut vertex: Vec<P> = Vec::new();
        let mut faces: Vec<[usize; 3]> = Vec::new();
        let mut ids: Vec<u64> = Vec::new();
        let mut t: usize = 0;
        while t < triangles.len()
            invariant
                3 * triangles@.len() <= usize::MAX,
                t <= triangles@.len(),
                cids == corner_ids(triangles@),
                cpos == corner_positions(triangles@),
                ids@ == weld_ids(cids.take(3 * t)),
                vertex@ == weld_positions(cids.take(3 * t), cpos.take(3 * t)),
                ids@.no_duplicates(),
                ids@.len() == vertex@.len(),
                ids@.len() <= 3 * t,
                forall|k: u64| #[trigger]
                    id_to_index@.contains_key(k) ==> id_to_index@[k] < ids@.len() && ids@[id_to_index@[k] as int] == k,
                forall|s: int| 0 <= s < ids@.len() ==> id_to_index@.contains_key(#[trigger] ids@[s]),
                faces@.len() == t,
                forall|a: int, j: int|
                    0 <= a < t && 0 <= j < 3 ==> (#[trigger] faces@[a]@[j]) < ids@.len() && ids@[faces@[a]@[j] as int]
                        == triangles@[a].id@[j],
            decreases triangles@.len() - t,
        {
            let tri = &triangles[t];
            let mut face: [usize; 3] = [0, 0, 0];
            let mut j: usize = 0;
            while j < 3
                invariant
                    3 * triangles@.len() <= usize::MAX,
                    t < triangles@.len(),
                    j <= 3,
                    *tri == triangles@[t as int],
                    cids == corner_ids(triangles@),
                    cpos == corner_positions(triangles@),
                    ids@ == weld_ids(cids.take(3 * t + j)),
                    vertex@ == weld_positions(cids.take(3 * t + j), cpos.take(3 * t + j)),
                    ids@.no_duplicates(),
                    ids@.len() == vertex@.len(),
                    ids@.len() <= 3 * t + j,
                    forall|k: u64| #[trigger]
                        id_to_index@.contains_key(k) ==> id_to_index@[k] < ids@.len() && ids@[id_to_index@[k] as int] == k,
                    forall|s: int| 0 <= s < ids@.len() ==> id_to_index@.contains_key(#[trigger] ids@[s]),
                    faces@.len() == t,
                    forall|a: int, jj: int|
                        0 <= a < t && 0 <= jj < 3 ==> (#[trigger] faces@[a]@[jj]) < ids@.len() && ids@[faces@[a]@[jj] as int]
                            == triangles@[a].id@[jj],
                    forall|jj: int| 0 <= jj < j ==> (#[trigger] face@[jj]) < ids@.len() && ids@[face@[jj] as int] == tri.id@[jj],
                decreases 3 - j,
            {
                let id = tri.id[j];
                let c = 3 * t + j;
                proof {
                    assert(cids[c as int] == id);
                    assert(cpos[c as int] == tri.position@[j as int]);
                    assert(cids.take(c + 1).drop_last() =~= cids.take(c as int));
                    assert(cpos.take(c + 1).drop_last() =~= cpos.take(c as int));
                    assert(cids.take(c + 1).last() == id);
                    assert(cpos.take(c + 1).last() == tri.position@[j as int]);
                }
                let index = match id_to_index.get(&id) {
                    Some(ix) => {
                        proof {
                            assert(ids@.contains(id));
                        }
                        *ix
                    },
                    None => {
                        proof {
                            if ids@.contains(id) {
                                let s = choose|s: int| 0 <= s < ids@.len() && ids@[s] == id;
                                assert(id_to_index@.contains_key(ids@[s]));
                            }
                        }
                        let new_index = ids.len();
                        vertex.push(tri.position[j]);
                        ids.push(id);
                        id_to_index.insert(id, new_index);
                        new_index
                    },
                };
                face[j] = index;
                j += 1;
            }
            faces.push(face);
            t += 1;
        }
        proof {
            assert(cids.take(3 * triangles@.len() as int) =~= cids);
            assert(cpos.take(3 * triangles@.len() as int) =~= cpos);
        }
        Mesh { ids, vertex, faces, normals: None }
    }
}


/// The faces that touch vertex `v`, once per corner of the face on `v`, in
/// face order.
pub open spec fn faces_around(faces: Seq<[usize; 3]>, v: int) -> Seq<usize>
    decreases faces.len(),
{
    if faces.len() == 0 {
        Seq::empty()
    } else {
        let t = (faces.len() - 1) as usize;
        let f = faces.last();
        faces_around(faces.drop_last(), v) + (if f@[0] == v {
            seq![t]
        } else {
            Seq::empty()
        }) + (if f@[1] == v {
            seq![t]
        } else {
            Seq::empty()
        }) + (if f@[2] == v {
            seq![t]
        } else {
            Seq::empty()
        })
    }
}

impl<P> Mesh<P> {
    /// For each vertex, the faces around it (a face on the vertex twice is
    /// listed twice): what per-vertex normals are summed over.
    pub fn vertex_faces(&self) -> (r: Vec<Vec<usize>>)
        requires
            self.wf(),
        ensures
            r@.len() == self.vertex_view().len(),
            forall|v: int|
                0 <= v < r@.len() ==> (#[trigger] r@[v])@ == faces_around(self.faces_view(), v),
    {
        let n = self.vertex.len();
        let mut r: Vec<Vec<usize>> = Vec::new();
        let mut v: usize = 0;
        while v < n
            invariant
                v <= n,
                n == self.vertex_view().len(),
                r@.len() == v,
                forall|u: int| 0 <= u < v ==> (#[trigger] r@[u])@ == Seq::<usize>::empty(),
            decreases n - v,
        {
            r.push(Vec::new());
            v += 1;
        }
        assert(self.faces_view().take(0) =~= Seq::<[usize; 3]>::empty());
        let mut t: usize = 0;
        while t < self.faces.len()
            invariant
                self.wf(),
                t <= self.faces_view().len(),
                n == self.vertex_view().len(),
                r@.len() == n,
                forall|u: int|
                    0 <= u < n ==> (#[trigger] r@[u])@ == faces_around(self.faces_view().take(t as int), u),
            decreases self.faces_view().len() - t,
        {
            let f = self.faces[t];
            let ghost before = r@;
            assert(f@[0] < n && f@[1] < n && f@[2] < n) by {
                assert(self.faces_view()[t as int]@[0] < n);
                assert(self.faces_view()[t as int]@[1] < n);
                assert(self.faces_view()[t as int]@[2] < n);
            }
            r[f[0]].push(t);
            r[f[1]].push(t);
            r[f[2]].push(t);
            proof {
                let fs = self.faces_view().take(t + 1);
                assert(fs.drop_last() =~= self.faces_view().take(t as int));
                assert(fs.last() == f);
                assert forall|u: int| 0 <= u < n implies (#[trigger] r@[u])@ == faces_around(fs, u) by {
                    assert(r@[u]@ =~= before[u]@ + (if f@[0] == u {
                        seq![t]
                    } else {
                        Seq::empty()
                    }) + (if f@[1] == u {
                        seq![t]
                    } else {
                        Seq::empty()
                    }) + (if f@[2] == u {
                        seq![t]
                    } else {
                        Seq::empty()
                    }));
                }
            }
            t += 1;
        }
        assert(self.faces_view().take(self.faces_view().len() as int) =~= self.faces_view());
        r
    }

    /// Stores one normal per vertex.
    pub fn set_normals(&mut self, normals: Vec<P>)
        requires
            old(self).wf(),
            normals@.len() == old(self).vertex_view().len(),
        ensures
            final(self).wf(),
            final(self).normals_view() == Some(normals@),
            final(self).ids_view() == old(self).ids_view(),
            final(self).vertex_view() == old(self).vertex_view(),
            final(self).faces_view() == old(self).faces_view(),
    {
        self.normals = Some(normals);
        assert(self.faces_view() == old(self).faces_view());
        assert(forall|t: int, j: int|
            0 <= t < self.faces_view().len() && 0 <= j < 3 ==> (#[trigger] self.faces_view()[t]@[j])
                < self.vertex_view().len());
    }

    pub fn vertex(&self) -> (r: &Vec<P>)
        ensures
            r@ == self.vertex_view(),
    {
        &self.vertex
    }

    pub fn faces(&self) -> (r: &Vec<[usize; 3]>)
        ensures
            r@ == self.faces_view(),
    {
        &self.faces
    }

    /// The normals; they must have been set.
    pub fn normals(&self) -> (r: &Vec<P>)
        requires
            self.normals_view() is Some,
        ensures
            Some(r@) == self.normals_view(),
    {
        match &self.normals {
            Some(n) => n,
            None => {
                assert(false);
                &self.vertex
            },
        }
    }

    pub fn ids(&self) -> (r: &Vec<u64>)
        ensures
            r@ == self.ids_view(),
    {
        &self.ids
    }
}

} // verus!
