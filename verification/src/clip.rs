//! Clipping one cell of a polytope by half-spaces, as far as it can be
//! done without coordinates: which vertices, edges and faces survive, where
//! edges are cut, and how the cut is closed by a new face.
//!
//! The caller tells on which side of the clipping plane each vertex lies
//! and computes the coordinates of the vertices that a cut creates.

use vstd::prelude::*;
use std::collections::HashMap;
use crate::index_list::IndexList;
use crate::mesh::{list_below, Mesh};

verus! {

broadcast use vstd::std_specs::hash::group_hash_axioms;

/// Where a vertex lies relative to a clipping plane: clearly inside the
/// half-space that is kept, on the plane within the tolerance, or clearly
/// outside.
#[derive(Clone, Copy, PartialEq, Eq, Structural, Debug)]
pub enum Side {
    Positive,
    Zero,
    Negative,
}

/// Where a vertex of a clip mesh comes from: it is a vertex of the mesh, or
/// the point where a plane cut the edge between two earlier vertices of the
/// clip mesh, given head first.
#[derive(Clone, Copy, PartialEq, Eq, Structural, Debug)]
pub enum VertexOrigin {
    Mesh(usize),
    Cut(usize, usize),
}

/// How a clipping plane met the mesh.
#[derive(Clone, Copy, PartialEq, Eq, Structural, Debug)]
pub enum ProcessVertexResult {
    NoneClipped,
    AllClipped,
    PartiallyClipped,
}

/// A vertex of a clip mesh. `occurs` is scratch space of the search for
/// open polylines: it counts up to two.
#[derive(Debug)]
pub struct ClipVertex {
    pub origin: VertexOrigin,
    pub side: Side,
    pub occurs: u8,
    pub visible: bool,
}

/// An edge of a clip mesh.
#[derive(Debug)]
pub struct ClipEdge {
    pub hd_vertex: usize,
    pub tl_vertex: usize,
    pub faces: IndexList,
    pub visible: bool,
}

/// A face of a clip mesh.
#[derive(Debug)]
pub struct ClipFace {
    pub edges: IndexList,
    pub visible: bool,
}

/// One cell of a polytope while it is clipped.
#[derive(Debug)]
pub struct ClipMesh {
    pub vertices: Vec<ClipVertex>,
    pub edges: Vec<ClipEdge>,
    pub faces: Vec<ClipFace>,
}

impl ClipMesh {
    /// Every index names something of the clip mesh, and a cut lies between
    /// two earlier vertices.
    pub open spec fn in_range(&self) -> bool {
        &&& forall|e: int|
            0 <= e < self.edges@.len() ==> {
                &&& (#[trigger] self.edges@[e]).hd_vertex < self.vertices@.len()
                &&& self.edges@[e].tl_vertex < self.vertices@.len()
                &&& list_below(self.edges@[e].faces@, self.faces@.len() as int)
            }
        &&& forall|f: int|
            0 <= f < self.faces@.len() ==> list_below(
                (#[trigger] self.faces@[f]).edges@,
                self.edges@.len() as int,
            )
        &&& forall|v: int|
            0 <= v < self.vertices@.len() ==> match (#[trigger] self.vertices@[v]).origin {
                VertexOrigin::Mesh(_) => true,
                VertexOrigin::Cut(a, b) => a < v && b < v,
            }
    }

    /// Both vertices of every visible edge are visible.
    pub open spec fn edge_ends_visible(&self) -> bool {
        forall|e: int|
            0 <= e < self.edges@.len() && (#[trigger] self.edges@[e]).visible ==> {
                &&& self.vertices@[self.edges@[e].hd_vertex as int].visible
                &&& self.vertices@[self.edges@[e].tl_vertex as int].visible
            }
    }

    /// No face lists an edge twice.
    pub open spec fn faces_distinct(&self) -> bool {
        forall|f: int| 0 <= f < self.faces@.len() ==> (#[trigger] self.faces@[f]).edges@.no_duplicates()
    }

    /// Every edge that a visible face lists is visible.
    pub open spec fn face_edges_visible(&self) -> bool {
        forall|f: int, j: int|
            0 <= f < self.faces@.len() && self.faces@[f].visible && 0 <= j
                < self.faces@[f].edges@.len() ==> self.edges@[(
            #[trigger] self.faces@[f].edges@[j]) as int].visible
    }

    /// The clip mesh is closed under its own references, no face lists an
    /// edge twice, a visible face has only visible edges, and a visible edge
    /// has only visible vertices.
    pub open spec fn well_formed(&self) -> bool {
        &&& self.in_range()
        &&& self.faces_distinct()
        &&& self.face_edges_visible()
        &&& self.edge_ends_visible()
    }

    /// The vertices that have survived every clip, by their indices in
    /// rising order.
    pub fn to_vertices(&self) -> (kept: Vec<usize>)
        ensures
            forall|k: int| 0 <= k < kept@.len() ==> (#[trigger] kept@[k]) < self.vertices@.len()
                && self.vertices@[kept@[k] as int].visible,
            forall|k: int, l: int| 0 <= k < l < kept@.len() ==> kept@[k] < kept@[l],
            forall|v: int|
                0 <= v < self.vertices@.len() && (#[trigger] self.vertices@[v]).visible ==> kept@.contains(
                    v as usize,
                ),
    {
        let mut kept: Vec<usize> = Vec::new();
        let mut v: usize = 0;
        while v < self.vertices.len()
            invariant
                v <= self.vertices@.len(),
                forall|k: int| 0 <= k < kept@.len() ==> (#[trigger] kept@[k]) < v
                    && self.vertices@[kept@[k] as int].visible,
                forall|k: int, l: int| 0 <= k < l < kept@.len() ==> kept@[k] < kept@[l],
                forall|u: int|
                    0 <= u < v && (#[trigger] self.vertices@[u]).visible ==> kept@.contains(u as usize),
            decreases self.vertices@.len() - v,
        {
            if self.vertices[v].visible {
                let ghost before = kept@;
                kept.push(v);
                proof {
                    assert(kept@[before.len() as int] == v);
                    assert forall|u: int|
                        0 <= u < v + 1 && (#[trigger] self.vertices@[u]).visible implies kept@.contains(
                        u as usize,
                    ) by {
                        if u < v {
                            let k = choose|k: int| 0 <= k < before.len() && before[k] == u as usize;
                            assert(kept@[k] == u as usize);
                        }
                    }
                }
            }
            v += 1;
        }
        kept
    }

    /// The number of vertices, visible or not.
    pub fn vertex_count(&self) -> (n: usize)
        ensures
            n == self.vertices@.len(),
    {
        self.vertices.len()
    }
}

/// The edge `e` ends at the vertex `v`.
pub open spec fn ends_at(edges: Seq<ClipEdge>, e: int, v: int) -> bool {
    0 <= e < edges.len() && (edges[e].hd_vertex == v || edges[e].tl_vertex == v)
}

/// Some edge ends at the vertex `v`.
pub open spec fn vertex_used(edges: Seq<ClipEdge>, v: int) -> bool {
    exists|e: int| #[trigger] ends_at(edges, e, v)
}

/// The face `i` lists the edge `k` at position `j`.
pub open spec fn lists_at(faces: Seq<ClipFace>, i: int, j: int, k: int) -> bool {
    0 <= i < faces.len() && 0 <= j < faces[i].edges@.len() && faces[i].edges@[j] == k
}

/// The list `pending` holds the edge `k` at position `q`.
pub open spec fn held_at(pending: Seq<usize>, q: int, k: int) -> bool {
    0 <= q < pending.len() && pending[q] == k
}

/// Some face lists the edge `k`, or the list `pending` holds it.
pub open spec fn edge_listed(faces: Seq<ClipFace>, pending: Seq<usize>, k: int) -> bool {
    (exists|q: int| #[trigger] held_at(pending, q, k)) || exists|i: int, j: int| #[trigger]
        lists_at(faces, i, j, k)
}

/// Vertices that end an edge end an edge when edges are added and the
/// ends of the edges stay what they were.
pub proof fn lemma_used_kept(before: Seq<ClipEdge>, after: Seq<ClipEdge>, v: int)
    requires
        vertex_used(before, v),
        before.len() <= after.len(),
        forall|e: int|
            0 <= e < before.len() ==> (#[trigger] after[e]).hd_vertex == before[e].hd_vertex
                && after[e].tl_vertex == before[e].tl_vertex,
    ensures
        vertex_used(after, v),
{
    let e = choose|e: int| #[trigger] ends_at(before, e, v);
    assert(ends_at(after, e, v));
}

/// The edge at position `j` of the face at position `i` of a cell.
pub open spec fn mesh_edge_at(mesh: &Mesh, cell_idx: int, i: int, j: int) -> int {
    mesh.faces@[mesh.cells@[cell_idx].faces@[i] as int].edges@[j] as int
}

/// `clip` is a copy of the cell `cell_idx` of `mesh`: face by face and
/// edge by edge in the order of the mesh, with one clip edge for each edge
/// of the mesh and one clip vertex for each vertex of the mesh, everything
/// visible. It holds nothing else: every vertex ends an edge, and every
/// edge is listed by a face.
pub open spec fn copies_cell(clip: &ClipMesh, mesh: &Mesh, cell_idx: int) -> bool {
    let cell_faces = mesh.cells@[cell_idx].faces@;
    &&& clip.faces@.len() == cell_faces.len()
    &&& forall|v: int|
        0 <= v < clip.vertices@.len() ==> (#[trigger] clip.vertices@[v]).visible
            && clip.vertices@[v].origin is Mesh && clip.vertices@[v].origin->Mesh_0
            < mesh.vertex_data@.len()
    &&& forall|v: int, w: int|
        0 <= v < clip.vertices@.len() && 0 <= w < clip.vertices@.len() && (
        #[trigger] clip.vertices@[v]).origin == (#[trigger] clip.vertices@[w]).origin ==> v == w
    &&& forall|e: int| 0 <= e < clip.edges@.len() ==> (#[trigger] clip.edges@[e]).visible
    &&& forall|v: int| 0 <= v < clip.vertices@.len() ==> #[trigger] vertex_used(clip.edges@, v)
    &&& forall|e: int|
        0 <= e < clip.edges@.len() ==> #[trigger] edge_listed(clip.faces@, Seq::empty(), e)
    &&& forall|i: int|
        0 <= i < clip.faces@.len() ==> (#[trigger] clip.faces@[i]).visible
            && clip.faces@[i].edges@.len() == mesh.faces@[cell_faces[i] as int].edges@.len()
    &&& forall|i: int, j: int|
        0 <= i < clip.faces@.len() && 0 <= j < clip.faces@[i].edges@.len() ==> {
            let k = (#[trigger] clip.faces@[i].edges@[j]) as int;
            let m = mesh_edge_at(mesh, cell_idx, i, j);
            &&& clip.vertices@[clip.edges@[k].hd_vertex as int].origin == VertexOrigin::Mesh(
                mesh.edges@[m].hd_vertex,
            )
            &&& clip.vertices@[clip.edges@[k].tl_vertex as int].origin == VertexOrigin::Mesh(
                mesh.edges@[m].tl_vertex,
            )
            &&& clip.edges@[k].faces@.contains(i as usize)
        }
    &&& forall|i: int, j: int, i2: int, j2: int|
        0 <= i < clip.faces@.len() && 0 <= j < clip.faces@[i].edges@.len() && 0 <= i2
            < clip.faces@.len() && 0 <= j2 < clip.faces@[i2].edges@.len() ==> ((
        #[trigger] clip.faces@[i].edges@[j]) == (#[trigger] clip.faces@[i2].edges@[j2])) == (
        mesh_edge_at(mesh, cell_idx, i, j) == mesh_edge_at(mesh, cell_idx, i2, j2))
}


/// Copies one cell of a mesh into a clip mesh, element by element.
pub struct ClipMeshBuilder<'a> {
    pub mesh: &'a Mesh,
    pub cell_idx: usize,
    pub vertices: Vec<ClipVertex>,
    pub edges: Vec<ClipEdge>,
    pub faces: Vec<ClipFace>,
    pub vertex_map: HashMap<usize, usize>,
    pub edge_map: HashMap<usize, usize>,
    pub edge_source: Ghost<Seq<usize>>,
}

impl<'a> ClipMeshBuilder<'a> {
    /// The vertices copied so far are the values of the vertex map, and
    /// each is the copy of the vertex of the mesh that is its key.
    pub open spec fn vertices_copied(&self) -> bool {
        &&& forall|v: usize| #[trigger]
            self.vertex_map@.contains_key(v) ==> self.vertex_map@[v] < self.vertices@.len()
                && self.vertices@[self.vertex_map@[v] as int].origin == VertexOrigin::Mesh(v)
        &&& forall|k: int|
            0 <= k < self.vertices@.len() ==> {
                &&& (#[trigger] self.vertices@[k]).visible
                &&& self.vertices@[k].origin is Mesh
                &&& self.vertices@[k].origin->Mesh_0 < self.mesh.vertex_data@.len()
                &&& self.vertex_map@.contains_key(self.vertices@[k].origin->Mesh_0)
                &&& self.vertex_map@[self.vertices@[k].origin->Mesh_0] == k
            }
    }

    /// The edges copied so far are the values of the edge map, and each is
    /// the copy of the edge of the mesh that is its key. Their face lists
    /// name faces below `face_bound`.
    pub open spec fn edges_copied(&self, face_bound: int) -> bool {
        &&& self.edge_source@.len() == self.edges@.len()
        &&& forall|m: usize| #[trigger]
            self.edge_map@.contains_key(m) ==> self.edge_map@[m] < self.edges@.len()
                && self.edge_source@[self.edge_map@[m] as int] == m
        &&& forall|k: int|
            0 <= k < self.edges@.len() ==> {
                let m = self.edge_source@[k];
                &&& (#[trigger] self.edges@[k]).visible
                &&& m < self.mesh.edges@.len()
                &&& self.edge_map@.contains_key(m)
                &&& self.edge_map@[m] == k
                &&& self.edges@[k].hd_vertex < self.vertices@.len()
                &&& self.edges@[k].tl_vertex < self.vertices@.len()
                &&& self.vertices@[self.edges@[k].hd_vertex as int].origin == VertexOrigin::Mesh(
                    self.mesh.edges@[m as int].hd_vertex,
                )
                &&& self.vertices@[self.edges@[k].tl_vertex as int].origin == VertexOrigin::Mesh(
                    self.mesh.edges@[m as int].tl_vertex,
                )
                &&& list_below(self.edges@[k].faces@, face_bound)
            }
    }

    /// The faces copied so far are the first faces of the cell, edge by
    /// edge.
    pub open spec fn faces_copied(&self) -> bool {
        &&& self.faces@.len() <= self.mesh.cells@[self.cell_idx as int].faces@.len()
        &&& forall|i: int|
            0 <= i < self.faces@.len() ==> (#[trigger] self.faces@[i]).visible
                && self.face_copied(self.faces@[i].edges@, i, self.faces@[i].edges@.len() as int)
                && self.faces@[i].edges@.len()
                == self.mesh.faces@[self.mesh.cells@[self.cell_idx as int].faces@[i] as int].edges@.len()
    }

    /// The list `edges` holds the copies of the first `upto` edges of the
    /// face at position `i` of the cell, and each of them lists that face.
    pub open spec fn face_copied(&self, edges: Seq<usize>, i: int, upto: int) -> bool {
        &&& upto <= edges.len()
        &&& forall|j: int|
            0 <= j < upto ==> (#[trigger] edges[j]) < self.edges@.len() && self.edge_source@[edges[j] as int]
                == mesh_edge_at(self.mesh, self.cell_idx as int, i, j)
                && self.edges@[edges[j] as int].faces@.contains(i as usize)
    }

    /// Every vertex copied so far ends an edge.
    pub open spec fn all_used(&self) -> bool {
        forall|v: int| 0 <= v < self.vertices@.len() ==> #[trigger] vertex_used(self.edges@, v)
    }

    /// Every edge copied so far is listed by a face or by the list
    /// `pending`.
    pub open spec fn all_listed(&self, pending: Seq<usize>) -> bool {
        forall|k: int|
            0 <= k < self.edges@.len() ==> #[trigger] edge_listed(self.faces@, pending, k)
    }

    /// What holds of a builder between two steps.
    pub open spec fn inv(&self, face_bound: int) -> bool {
        &&& self.mesh.in_range()
        &&& self.mesh.face_edges_distinct()
        &&& self.cell_idx < self.mesh.cells@.len()
        &&& self.vertices_copied()
        &&& self.edges_copied(face_bound)
        &&& self.faces_copied()
    }

    /// A builder that has copied nothing yet.
    pub fn new(mesh: &'a Mesh, cell_idx: usize) -> (builder: Self)
        requires
            mesh.in_range(),
            mesh.face_edges_distinct(),
            cell_idx < mesh.cells@.len(),
        ensures
            builder.inv(0),
            builder.mesh == mesh,
            builder.cell_idx == cell_idx,
            builder.faces@.len() == 0,
            builder.all_used(),
            builder.all_listed(Seq::empty()),
    {
        ClipMeshBuilder {
            mesh,
            cell_idx,
            vertices: Vec::new(),
            edges: Vec::new(),
            faces: Vec::new(),
            vertex_map: HashMap::new(),
            edge_map: HashMap::new(),
            edge_source: Ghost(Seq::empty()),
        }
    }

    /// The copy of the vertex `vertex_idx` of the mesh, made now if there
    /// was none.
    pub fn push_vertex(&mut self, vertex_idx: usize) -> (idx: usize)
        requires
            old(self).vertices_copied(),
            vertex_idx < old(self).mesh.vertex_data@.len(),
        ensures
            final(self).vertices_copied(),
            final(self).mesh == old(self).mesh,
            final(self).cell_idx == old(self).cell_idx,
            final(self).edges == old(self).edges,
            final(self).faces == old(self).faces,
            final(self).edge_map == old(self).edge_map,
            final(self).edge_source == old(self).edge_source,
            idx < final(self).vertices@.len(),
            final(self).vertices@[idx as int].origin == VertexOrigin::Mesh(vertex_idx),
            final(self).vertices@.len() >= old(self).vertices@.len(),
            final(self).vertices@.len() <= old(self).vertices@.len() + 1,
            final(self).vertices@.len() == old(self).vertices@.len() + 1 ==> idx
                == old(self).vertices@.len(),
            forall|k: int|
                0 <= k < old(self).vertices@.len() ==> final(self).vertices@[k] == old(self).vertices@[k],
    {
        match self.vertex_map.get(&vertex_idx) {
            Some(idx) => *idx,
            None => {
                let fresh_idx = self.vertices.len();
                self.vertices.push(
                    ClipVertex {
                        origin: VertexOrigin::Mesh(vertex_idx),
                        side: Side::Zero,
                        occurs: 0,
                        visible: true,
                    },
                );
                self.vertex_map.insert(vertex_idx, fresh_idx);
                fresh_idx
            },
        }
    }

    /// The copy of the edge `edge_idx` of the mesh, made now if there was
    /// none.
    pub fn push_edge(&mut self, edge_idx: usize, Ghost(face_bound): Ghost<int>) -> (idx: usize)
        requires
            old(self).inv(face_bound),
            old(self).all_used(),
            edge_idx < old(self).mesh.edges@.len(),
        ensures
            final(self).inv(face_bound),
            final(self).all_used(),
            final(self).edges@.len() <= old(self).edges@.len() + 1,
            final(self).edges@.len() == old(self).edges@.len() + 1 ==> idx == old(self).edges@.len(),
            final(self).mesh == old(self).mesh,
            final(self).cell_idx == old(self).cell_idx,
            final(self).faces == old(self).faces,
            idx < final(self).edges@.len(),
            final(self).edge_source@[idx as int] == edge_idx,
            final(self).edges@.len() >= old(self).edges@.len(),
            final(self).edge_source@.take(old(self).edges@.len() as int) == old(self).edge_source@,
            forall|k: int|
                0 <= k < old(self).edges@.len() ==> final(self).edges@[k] == old(self).edges@[k],
    {
        match self.edge_map.get(&edge_idx) {
            Some(idx) => {
                assert(self.edge_source@.take(self.edges@.len() as int) =~= self.edge_source@);
                *idx
            },
            None => {
                let fresh_idx = self.edges.len();
                let hd = self.mesh.edges[edge_idx].hd_vertex;
                let tl = self.mesh.edges[edge_idx].tl_vertex;
                let hd_vertex = self.push_vertex(hd);
                let tl_vertex = self.push_vertex(tl);
                self.edges.push(
                    ClipEdge { hd_vertex, tl_vertex, faces: IndexList::new(), visible: true },
                );
                self.edge_map.insert(edge_idx, fresh_idx);
                proof {
                    assert forall|v: int| 0 <= v < self.vertices@.len() implies #[trigger] vertex_used(
                        self.edges@,
                        v,
                    ) by {
                        if v < old(self).vertices@.len() {
                            lemma_used_kept(old(self).edges@, self.edges@, v);
                        } else {
                            assert(v == hd_vertex || v == tl_vertex);
                            assert(ends_at(self.edges@, fresh_idx as int, v));
                        }
                    }
                    self.edge_source@ = self.edge_source@.push(edge_idx);
                    assert(self.edge_source@.take(fresh_idx as int) =~= old(self).edge_source@);
                    assert forall|i: int| 0 <= i < self.faces@.len() implies self.face_copied(
                        (#[trigger] self.faces@[i]).edges@,
                        i,
                        self.faces@[i].edges@.len() as int,
                    ) by {
                        assert(old(self).face_copied(
                            old(self).faces@[i].edges@,
                            i,
                            old(self).faces@[i].edges@.len() as int,
                        ));
                    }
                }
                fresh_idx
            },
        }
    }

    /// Copies the face at the next position of the cell.
    pub fn push_face(&mut self, face_idx: usize) -> (idx: usize)
        requires
            old(self).inv(old(self).faces@.len() as int),
            old(self).all_used(),
            old(self).all_listed(Seq::empty()),
            old(self).faces@.len() < old(self).mesh.cells@[old(self).cell_idx as int].faces@.len(),
            face_idx == old(self).mesh.cells@[old(self).cell_idx as int].faces@[old(self).faces@.len() as int],
        ensures
            final(self).inv(final(self).faces@.len() as int),
            final(self).all_used(),
            final(self).all_listed(Seq::empty()),
            final(self).mesh == old(self).mesh,
            final(self).cell_idx == old(self).cell_idx,
            final(self).faces@.len() == old(self).faces@.len() + 1,
            idx == old(self).faces@.len(),
    {
        let mesh = self.mesh;
        let fresh_idx = self.faces.len();
        let mut clip_face = ClipFace { edges: IndexList::new(), visible: true };
        assert(face_idx < mesh.faces@.len());
        let total = mesh.faces[face_idx].edges.len();
        let mut j: usize = 0;
        while j < total
            invariant
                self.inv(fresh_idx + 1),
                self.mesh == mesh,
                self.mesh == old(self).mesh,
                self.cell_idx == old(self).cell_idx,
                self.faces == old(self).faces,
                fresh_idx == self.faces@.len(),
                fresh_idx < mesh.cells@[self.cell_idx as int].faces@.len(),
                face_idx == mesh.cells@[self.cell_idx as int].faces@[fresh_idx as int],
                face_idx < mesh.faces@.len(),
                total == mesh.faces@[face_idx as int].edges@.len(),
                j <= total,
                clip_face.visible,
                clip_face.edges@.len() == j,
                self.face_copied(clip_face.edges@, fresh_idx as int, j as int),
                self.all_used(),
                self.all_listed(clip_face.edges@),
            decreases total - j,
        {
            let edge_idx = mesh.faces[face_idx].edges.get(j);
            assert(mesh.faces@[face_idx as int].edges@[j as int] < mesh.edges@.len());
            let ghost mid = *self;
            let clip_edge_idx = self.push_edge(edge_idx, Ghost(fresh_idx + 1));
            let ghost pushed = *self;
            self.edges[clip_edge_idx].faces.push(fresh_idx);
            let ghost listed = clip_face.edges@;
            clip_face.edges.push(clip_edge_idx);
            proof {
                assert forall|v: int| 0 <= v < self.vertices@.len() implies #[trigger] vertex_used(
                    self.edges@,
                    v,
                ) by {
                    assert(vertex_used(pushed.edges@, v));
                    lemma_used_kept(pushed.edges@, self.edges@, v);
                }
                assert forall|k: int| 0 <= k < self.edges@.len() implies #[trigger] edge_listed(
                    self.faces@,
                    clip_face.edges@,
                    k,
                ) by {
                    if k == clip_edge_idx {
                        assert(held_at(clip_face.edges@, listed.len() as int, k));
                    } else {
                        assert(edge_listed(mid.faces@, listed, k));
                        if exists|q: int| #[trigger] held_at(listed, q, k) {
                            let q = choose|q: int| #[trigger] held_at(listed, q, k);
                            assert(held_at(clip_face.edges@, q, k));
                        } else {
                            let (i, j) = choose|i: int, j: int| #[trigger] lists_at(mid.faces@, i, j, k);
                            assert(lists_at(self.faces@, i, j, k));
                        }
                    }
                }
                assert(self.edges@[clip_edge_idx as int].faces@.last() == fresh_idx);
                assert(self.edges@[clip_edge_idx as int].faces@.contains(fresh_idx));
                assert forall|k: int| 0 <= k < self.edges@.len() implies list_below(
                    (#[trigger] self.edges@[k]).faces@,
                    fresh_idx + 1,
                ) by {
                    if k != clip_edge_idx {
                        assert(self.edges@[k] == pushed.edges@[k]);
                    }
                }
                let appended = pushed.edges@[clip_edge_idx as int].faces@;
                assert forall|i: int| 0 <= i < self.faces@.len() implies self.face_copied(
                    (#[trigger] self.faces@[i]).edges@,
                    i,
                    self.faces@[i].edges@.len() as int,
                ) by {
                    assert(pushed.face_copied(
                        pushed.faces@[i].edges@,
                        i,
                        pushed.faces@[i].edges@.len() as int,
                    ));
                    assert forall|q: int| 0 <= q < self.faces@[i].edges@.len() implies self.edges@[(
                    #[trigger] self.faces@[i].edges@[q]) as int].faces@.contains(i as usize) by {
                        let k = self.faces@[i].edges@[q] as int;
                        if k == clip_edge_idx {
                            let w = choose|w: int| 0 <= w < appended.len() && appended[w] == i as usize;
                            assert(self.edges@[k].faces@[w] == i as usize);
                        }
                    }
                }
                assert forall|q: int| 0 <= q < j + 1 implies (#[trigger] clip_face.edges@[q])
                    < self.edges@.len() && self.edge_source@[clip_face.edges@[q] as int]
                    == mesh_edge_at(self.mesh, self.cell_idx as int, fresh_idx as int, q)
                    && self.edges@[clip_face.edges@[q] as int].faces@.contains(fresh_idx) by {
                    if q < j {
                        assert(mid.face_copied(listed, fresh_idx as int, j as int));
                        assert(listed[q] == clip_face.edges@[q]);
                        let k = listed[q] as int;
                        assert(pushed.edge_source@.take(mid.edges@.len() as int)[k]
                            == pushed.edge_source@[k]);
                        if k == clip_edge_idx {
                        } else {
                            assert(self.edges@[k] == pushed.edges@[k]);
                            assert(pushed.edges@[k] == mid.edges@[k]);
                        }
                    }
                }
            }
            j += 1;
        }
        let ghost unfinished = self.faces@;
        let ghost pending = clip_face.edges@;
        self.faces.push(clip_face);
        proof {
            assert forall|k: int| 0 <= k < self.edges@.len() implies #[trigger] edge_listed(
                self.faces@,
                Seq::empty(),
                k,
            ) by {
                assert(edge_listed(unfinished, pending, k));
                if exists|q: int| #[trigger] held_at(pending, q, k) {
                    let q = choose|q: int| #[trigger] held_at(pending, q, k);
                    assert(lists_at(self.faces@, fresh_idx as int, q, k));
                } else {
                    let (i, j) = choose|i: int, j: int| #[trigger] lists_at(unfinished, i, j, k);
                    assert(lists_at(self.faces@, i, j, k));
                }
            }
            assert forall|i: int| 0 <= i < self.faces@.len() implies (#[trigger] self.faces@[i]).visible
                && self.face_copied(self.faces@[i].edges@, i, self.faces@[i].edges@.len() as int)
                && self.faces@[i].edges@.len()
                == self.mesh.faces@[self.mesh.cells@[self.cell_idx as int].faces@[i] as int].edges@.len() by {
                if i < fresh_idx {
                    assert(self.faces@[i] == old(self).faces@[i]);
                }
            }
        }
        fresh_idx
    }

    /// Copies every face of the cell and hands out the clip mesh.
    pub fn build(self) -> (clip: ClipMesh)
        requires
            self.inv(0),
            self.faces@.len() == 0,
            self.all_used(),
            self.all_listed(Seq::empty()),
        ensures
            clip.well_formed(),
            copies_cell(&clip, self.mesh, self.cell_idx as int),
    {
        let mut builder = self;
        let mesh = builder.mesh;
        let total = mesh.cells[builder.cell_idx].faces.len();
        let mut i: usize = 0;
        while i < total
            invariant
                builder.inv(i as int),
                builder.all_used(),
                builder.all_listed(Seq::empty()),
                builder.mesh == mesh,
                builder.mesh == self.mesh,
                builder.cell_idx == self.cell_idx,
                builder.faces@.len() == i,
                total == mesh.cells@[builder.cell_idx as int].faces@.len(),
                i <= total,
            decreases total - i,
        {
            let face_idx = mesh.cells[builder.cell_idx].faces.get(i);
            builder.push_face(face_idx);
            i += 1;
        }
        let ghost b = builder;
        let clip = ClipMesh { vertices: builder.vertices, edges: builder.edges, faces: builder.faces };
        proof {
            assert forall|f: int| 0 <= f < clip.faces@.len() implies list_below(
                (#[trigger] clip.faces@[f]).edges@,
                clip.edges@.len() as int,
            ) by {
                assert(b.face_copied(b.faces@[f].edges@, f, b.faces@[f].edges@.len() as int));
            }
            assert forall|f: int| 0 <= f < clip.faces@.len() implies (
            #[trigger] clip.faces@[f]).edges@.no_duplicates() by {
                assert(b.face_copied(b.faces@[f].edges@, f, b.faces@[f].edges@.len() as int));
                let list = clip.faces@[f].edges@;
                let source = self.mesh.faces@[self.mesh.cells@[self.cell_idx as int].faces@[f] as int].edges@;
                assert(source.no_duplicates());
                assert forall|x: int, y: int|
                    0 <= x < list.len() && 0 <= y < list.len() && x != y implies list[x]
                    != list[y] by {
                    assert(b.edge_source@[list[x] as int] == source[x]);
                    assert(b.edge_source@[list[y] as int] == source[y]);
                }
            }
            assert forall|f: int, j: int|
                0 <= f < clip.faces@.len() && clip.faces@[f].visible && 0 <= j
                    < clip.faces@[f].edges@.len() implies clip.edges@[(
            #[trigger] clip.faces@[f].edges@[j]) as int].visible by {
                assert(b.face_copied(b.faces@[f].edges@, f, b.faces@[f].edges@.len() as int));
            }
            assert forall|v: int, w: int|
                0 <= v < clip.vertices@.len() && 0 <= w < clip.vertices@.len() && (
                #[trigger] clip.vertices@[v]).origin == (#[trigger] clip.vertices@[w]).origin implies v
                == w by {
                assert(b.vertex_map@[clip.vertices@[v].origin->Mesh_0] == v);
                assert(b.vertex_map@[clip.vertices@[w].origin->Mesh_0] == w);
            }
            assert forall|i: int, j: int|
                0 <= i < clip.faces@.len() && 0 <= j < clip.faces@[i].edges@.len() implies {
                let k = (#[trigger] clip.faces@[i].edges@[j]) as int;
                let m = mesh_edge_at(self.mesh, self.cell_idx as int, i, j);
                &&& clip.vertices@[clip.edges@[k].hd_vertex as int].origin == VertexOrigin::Mesh(
                    self.mesh.edges@[m].hd_vertex,
                )
                &&& clip.vertices@[clip.edges@[k].tl_vertex as int].origin == VertexOrigin::Mesh(
                    self.mesh.edges@[m].tl_vertex,
                )
                &&& clip.edges@[k].faces@.contains(i as usize)
            } by {
                assert(b.face_copied(b.faces@[i].edges@, i, b.faces@[i].edges@.len() as int));
            }
            assert forall|i: int, j: int, i2: int, j2: int|
                0 <= i < clip.faces@.len() && 0 <= j < clip.faces@[i].edges@.len() && 0 <= i2
                    < clip.faces@.len() && 0 <= j2 < clip.faces@[i2].edges@.len() implies ((
            #[trigger] clip.faces@[i].edges@[j]) == (#[trigger] clip.faces@[i2].edges@[j2])) == (
            mesh_edge_at(self.mesh, self.cell_idx as int, i, j) == mesh_edge_at(
                self.mesh,
                self.cell_idx as int,
                i2,
                j2,
            )) by {
                assert(b.face_copied(b.faces@[i].edges@, i, b.faces@[i].edges@.len() as int));
                assert(b.face_copied(b.faces@[i2].edges@, i2, b.faces@[i2].edges@.len() as int));
                let k = clip.faces@[i].edges@[j];
                let k2 = clip.faces@[i2].edges@[j2];
                assert(b.edge_map@[b.edge_source@[k as int]] == k);
                assert(b.edge_map@[b.edge_source@[k2 as int]] == k2);
            }
        }
        clip
    }
}

impl ClipMesh {
    /// A copy of the cell `cell_idx` of `mesh`, ready to be clipped.
    pub fn from_cell(mesh: &Mesh, cell_idx: usize) -> (clip: ClipMesh)
        requires
            mesh.in_range(),
            mesh.face_edges_distinct(),
            cell_idx < mesh.cells@.len(),
        ensures
            clip.well_formed(),
            copies_cell(&clip, mesh, cell_idx as int),
    {
        ClipMeshBuilder::new(mesh, cell_idx).build()
    }
}


/// Number of times that `v` occurs in `s`.
pub open spec fn count_of(s: Seq<usize>, v: usize) -> nat
    decreases s.len(),
{
    if s.len() == 0 {
        0
    } else {
        count_of(s.drop_last(), v) + if s.last() == v { 1nat } else { 0nat }
    }
}

impl ClipMesh {
    /// The vertices at the ends of the edges `list`, edge by edge, head
    /// first.
    pub open spec fn endpoints(&self, list: Seq<usize>) -> Seq<usize> {
        Seq::new(
            2 * list.len(),
            |i: int|
                if i % 2 == 0 {
                    self.edges@[list[i / 2] as int].hd_vertex
                } else {
                    self.edges@[list[i / 2] as int].tl_vertex
                },
        )
    }

    /// The position `i` of `ends` holds a vertex at which exactly one of
    /// the edges ends: an end of an open polyline.
    pub open spec fn loose_end(ends: Seq<usize>, i: int) -> bool {
        0 <= i < ends.len() && count_of(ends, ends[i]) == 1
    }

    /// The first two loose ends among the edges of a face are at the
    /// positions `a` and `b` of its endpoints.
    pub open spec fn first_loose_ends(ends: Seq<usize>, a: int, b: int) -> bool {
        &&& a < b
        &&& Self::loose_end(ends, a)
        &&& Self::loose_end(ends, b)
        &&& forall|i: int| 0 <= i < b && i != a ==> !Self::loose_end(ends, i)
    }

    /// The ends of the open polyline that edges with the endpoints `ends`
    /// form: the vertices at the first two loose ends, if there are two.
    pub open spec fn open_ends(ends: Seq<usize>) -> Option<(usize, usize)> {
        if exists|a: int, b: int| Self::first_loose_ends(ends, a, b) {
            let (a, b) = choose|a: int, b: int| Self::first_loose_ends(ends, a, b);
            Some((ends[a], ends[b]))
        } else {
            None
        }
    }

    /// The first two loose ends are where they are found.
    pub proof fn lemma_open_ends(ends: Seq<usize>, a: int, b: int)
        requires
            Self::first_loose_ends(ends, a, b),
        ensures
            Self::open_ends(ends) == Some((ends[a], ends[b])),
    {
        let (x, y) = choose|x: int, y: int| Self::first_loose_ends(ends, x, y);
        assert(Self::first_loose_ends(ends, x, y));
        if x != a {
            if x < a {
                assert(!Self::loose_end(ends, x));
            } else {
                assert(!Self::loose_end(ends, a));
            }
        }
        if y != b {
            if y < b {
                assert(!Self::loose_end(ends, y));
            } else {
                assert(!Self::loose_end(ends, b));
            }
        }
    }

    /// Tells every visible vertex its side of the clipping plane and hides
    /// the vertices that lie clearly outside. Returns whether no visible
    /// vertex lies clearly outside, all that are left lie outside or on the
    /// plane, or the plane parts them.
    pub fn process_vertices(&mut self, sides: &Vec<Side>) -> (result: ProcessVertexResult)
        requires
            sides@.len() == old(self).vertices@.len(),
        ensures
            final(self).edges == old(self).edges,
            final(self).faces == old(self).faces,
            final(self).vertices@.len() == old(self).vertices@.len(),
            forall|i: int|
                0 <= i < old(self).vertices@.len() ==> {
                    let before = old(self).vertices@[i];
                    let after = #[trigger] final(self).vertices@[i];
                    &&& after.origin == before.origin
                    &&& after.occurs == before.occurs
                    &&& after.visible == (before.visible && sides@[i] != Side::Negative)
                    &&& after.side == if before.visible { sides@[i] } else { before.side }
                },
            result == classify(
                exists|i: int|
                    0 <= i < sides@.len() && old(self).vertices@[i].visible && #[trigger] sides@[i]
                        == Side::Positive,
                exists|i: int|
                    0 <= i < sides@.len() && old(self).vertices@[i].visible && #[trigger] sides@[i]
                        == Side::Negative,
            ),
    {
        let mut positive = false;
        let mut negative = false;
        let n = self.vertices.len();
        let mut v: usize = 0;
        while v < n
            invariant
                n == self.vertices@.len(),
                n == old(self).vertices@.len(),
                n == sides@.len(),
                v <= n,
                self.edges == old(self).edges,
                self.faces == old(self).faces,
                forall|i: int| v <= i < n ==> self.vertices@[i] == old(self).vertices@[i],
                forall|i: int|
                    0 <= i < v ==> {
                        let before = old(self).vertices@[i];
                        let after = #[trigger] self.vertices@[i];
                        &&& after.origin == before.origin
                        &&& after.occurs == before.occurs
                        &&& after.visible == (before.visible && sides@[i] != Side::Negative)
                        &&& after.side == if before.visible { sides@[i] } else { before.side }
                    },
                positive == (exists|i: int|
                    0 <= i < v && old(self).vertices@[i].visible && #[trigger] sides@[i]
                        == Side::Positive),
                negative == (exists|i: int|
                    0 <= i < v && old(self).vertices@[i].visible && #[trigger] sides@[i]
                        == Side::Negative),
            decreases n - v,
        {
            if self.vertices[v].visible {
                let side = sides[v];
                self.vertices[v].side = side;
                match side {
                    Side::Positive => {
                        positive = true;
                    },
                    Side::Negative => {
                        negative = true;
                        self.vertices[v].visible = false;
                    },
                    Side::Zero => {},
                }
            }
            v += 1;
        }
        if !negative {
            ProcessVertexResult::NoneClipped
        } else if !positive {
            ProcessVertexResult::AllClipped
        } else {
            ProcessVertexResult::PartiallyClipped
        }
    }

    /// The two ends of the open polyline that the edges of the face
    /// `face_idx` form, if they form one: the first two vertices, in the
    /// order of the edges and head before tail, at which exactly one of the
    /// edges ends.
    pub fn get_open_polyline(&mut self, face_idx: usize) -> (ends: Option<(usize, usize)>)
        requires
            old(self).in_range(),
            face_idx < old(self).faces@.len(),
        ensures
            final(self).edges == old(self).edges,
            final(self).faces == old(self).faces,
            final(self).vertices@.len() == old(self).vertices@.len(),
            forall|i: int|
                0 <= i < old(self).vertices@.len() ==> {
                    &&& (#[trigger] final(self).vertices@[i]).origin == old(self).vertices@[i].origin
                    &&& final(self).vertices@[i].side == old(self).vertices@[i].side
                    &&& final(self).vertices@[i].visible == old(self).vertices@[i].visible
                },
            ends == Self::open_ends(old(self).endpoints(old(self).faces@[face_idx as int].edges@)),
            match ends {
                Some((start, end)) => {
                    &&& start < old(self).vertices@.len()
                    &&& end < old(self).vertices@.len()
                    &&& old(self).endpoints(old(self).faces@[face_idx as int].edges@).contains(start)
                    &&& old(self).endpoints(old(self).faces@[face_idx as int].edges@).contains(end)
                },
                None => true,
            },
    {
        let total = self.faces[face_idx].edges.len();
        let ghost list = self.faces@[face_idx as int].edges@;
        let ghost points = self.endpoints(list);
        let mut k: usize = 0;
        while k < total
            invariant
                self.edges == old(self).edges,
                self.faces == old(self).faces,
                self.in_range(),
                face_idx < self.faces@.len(),
                list == self.faces@[face_idx as int].edges@,
                total == list.len(),
                k <= total,
                self.vertices@.len() == old(self).vertices@.len(),
                forall|i: int|
                    0 <= i < old(self).vertices@.len() ==> {
                        &&& (#[trigger] self.vertices@[i]).origin == old(self).vertices@[i].origin
                        &&& self.vertices@[i].side == old(self).vertices@[i].side
                        &&& self.vertices@[i].visible == old(self).vertices@[i].visible
                    },
                forall|j: int|
                    0 <= j < k ==> self.vertices@[self.edges@[(#[trigger] list[j]) as int].hd_vertex as int].occurs
                        == 0 && self.vertices@[self.edges@[list[j] as int].tl_vertex as int].occurs
                        == 0,
            decreases total - k,
        {
            let edge_idx = self.faces[face_idx].edges.get(k);
            assert(list[k as int] < self.edges@.len());
            let hd = self.edges[edge_idx].hd_vertex;
            let tl = self.edges[edge_idx].tl_vertex;
            self.vertices[hd].occurs = 0;
            self.vertices[tl].occurs = 0;
            k += 1;
        }
        assert forall|i: int| 0 <= i < points.len() implies self.vertices@[(
        #[trigger] points[i]) as int].occurs == 0 && points[i] < self.vertices@.len() by {
            assert(list[i / 2] < self.edges@.len());
        }
        let mut k: usize = 0;
        while k < total
            invariant
                self.edges == old(self).edges,
                self.faces == old(self).faces,
                self.in_range(),
                face_idx < self.faces@.len(),
                list == self.faces@[face_idx as int].edges@,
                points == self.endpoints(list),
                total == list.len(),
                k <= total,
                self.vertices@.len() == old(self).vertices@.len(),
                forall|i: int|
                    0 <= i < old(self).vertices@.len() ==> {
                        &&& (#[trigger] self.vertices@[i]).origin == old(self).vertices@[i].origin
                        &&& self.vertices@[i].side == old(self).vertices@[i].side
                        &&& self.vertices@[i].visible == old(self).vertices@[i].visible
                    },
                forall|i: int|
                    0 <= i < points.len() ==> (#[trigger] points[i]) < self.vertices@.len()
                        && self.vertices@[points[i] as int].occurs as int == capped(
                        count_of(points.take(2 * k), points[i]),
                    ),
            decreases total - k,
        {
            let edge_idx = self.faces[face_idx].edges.get(k);
            assert(list[k as int] < self.edges@.len());
            let hd = self.edges[edge_idx].hd_vertex;
            let tl = self.edges[edge_idx].tl_vertex;
            assert(points[2 * k] == hd && points[2 * k + 1] == tl);
            proof {
                assert(points.take(2 * k + 1).drop_last() =~= points.take(2 * k));
                assert(points.take(2 * k + 2).drop_last() =~= points.take(2 * k + 1));
            }
            let ghost before = self.vertices@;
            if self.vertices[hd].occurs < 2 {
                self.vertices[hd].occurs += 1;
            }
            if self.vertices[tl].occurs < 2 {
                self.vertices[tl].occurs += 1;
            }
            proof {
                assert forall|i: int| 0 <= i < points.len() implies self.vertices@[(
                #[trigger] points[i]) as int].occurs as int == capped(
                    count_of(points.take(2 * k + 2), points[i]),
                ) by {
                    let x = points[i];
                    assert(before[x as int].occurs as int == capped(
                        count_of(points.take(2 * k), x),
                    ));
                    assert(points.take(2 * k + 1).last() == hd);
                    assert(points.take(2 * k + 2).last() == tl);
                    assert(count_of(points.take(2 * k + 1), x) == count_of(points.take(2 * k), x)
                        + if hd == x { 1nat } else { 0nat });
                    assert(count_of(points.take(2 * k + 2), x) == count_of(
                        points.take(2 * k + 1),
                        x,
                    ) + if tl == x { 1nat } else { 0nat });
                }
            }
            k += 1;
        }
        assert(points.take(2 * total) =~= points);

        // each vertex at which exactly one edge ends is an end of the
        // open polyline
        let mut start: Option<usize> = None;
        let mut end: Option<usize> = None;
        let ghost mut a: int = -1;
        let ghost mut b: int = -1;
        let mut k: usize = 0;
        while k < total
            invariant
                self.edges == old(self).edges,
                self.faces == old(self).faces,
                self.in_range(),
                face_idx < self.faces@.len(),
                list == self.faces@[face_idx as int].edges@,
                points == self.endpoints(list),
                total == list.len(),
                k <= total,
                self.vertices@.len() == old(self).vertices@.len(),
                forall|i: int|
                    0 <= i < old(self).vertices@.len() ==> {
                        &&& (#[trigger] self.vertices@[i]).origin == old(self).vertices@[i].origin
                        &&& self.vertices@[i].side == old(self).vertices@[i].side
                        &&& self.vertices@[i].visible == old(self).vertices@[i].visible
                    },
                forall|i: int|
                    0 <= i < points.len() ==> (#[trigger] points[i]) < self.vertices@.len()
                        && self.vertices@[points[i] as int].occurs as int == capped(
                        count_of(points, points[i]),
                    ),
                start is None ==> end is None && forall|i: int|
                    0 <= i < 2 * k ==> !Self::loose_end(points, i),
                start is Some ==> 0 <= a < 2 * k && Self::loose_end(points, a) && points[a]
                    == start->Some_0 && forall|i: int| 0 <= i < a ==> !Self::loose_end(points, i),
                start is Some && end is None ==> forall|i: int|
                    a < i < 2 * k ==> !Self::loose_end(points, i),
                end is Some ==> start is Some && a < b < 2 * k && Self::loose_end(points, b)
                    && points[b] == end->Some_0 && forall|i: int|
                    a < i < b ==> !Self::loose_end(points, i),
            decreases total - k,
        {
            let edge_idx = self.faces[face_idx].edges.get(k);
            assert(list[k as int] < self.edges@.len());
            let hd = self.edges[edge_idx].hd_vertex;
            let tl = self.edges[edge_idx].tl_vertex;
            assert(points[2 * k] == hd && points[2 * k + 1] == tl);
            if self.vertices[hd].occurs == 1 {
                if start.is_none() {
                    start = Some(hd);
                    proof {
                        a = 2 * k;
                    }
                } else if end.is_none() {
                    end = Some(hd);
                    proof {
                        b = 2 * k;
                    }
                }
            }
            if self.vertices[tl].occurs == 1 {
                if start.is_none() {
                    start = Some(tl);
                    proof {
                        a = 2 * k + 1;
                    }
                } else if end.is_none() {
                    end = Some(tl);
                    proof {
                        b = 2 * k + 1;
                    }
                }
            }
            k += 1;
        }
        match (start, end) {
            (Some(start), Some(end)) => {
                proof {
                    assert(Self::first_loose_ends(points, a, b));
                    Self::lemma_open_ends(points, a, b);
                    assert(points[a] == start && points[b] == end);
                }
                Some((start, end))
            },
            _ => {
                assert forall|x: int, y: int| !Self::first_loose_ends(points, x, y) by {
                    if Self::first_loose_ends(points, x, y) {
                        if start is Some {
                            assert(!Self::loose_end(points, if x == a { y } else { x }));
                        }
                    }
                }
                None
            },
        }
    }
}

/// A count, as far as `occurs` keeps it: up to two.
pub open spec fn capped(n: nat) -> int {
    if n >= 2 {
        2
    } else {
        n as int
    }
}

/// How a plane meets a mesh of which some visible vertex lies clearly
/// inside (`positive`) or clearly outside (`negative`).
pub open spec fn classify(positive: bool, negative: bool) -> ProcessVertexResult {
    if !negative {
        ProcessVertexResult::NoneClipped
    } else if !positive {
        ProcessVertexResult::AllClipped
    } else {
        ProcessVertexResult::PartiallyClipped
    }
}


/// Taking one index out of a list without repetitions takes out exactly
/// that index.
pub proof fn lemma_remove_distinct(s: Seq<usize>, i: int)
    requires
        s.no_duplicates(),
        0 <= i < s.len(),
    ensures
        s.remove(i).no_duplicates(),
        forall|e: usize| #[trigger] s.remove(i).contains(e) <==> (s.contains(e) && e != s[i]),
{
    let r = s.remove(i);
    assert forall|e: usize| #[trigger] r.contains(e) <==> (s.contains(e) && e != s[i]) by {
        if r.contains(e) {
            let k = choose|k: int| 0 <= k < r.len() && r[k] == e;
            if k < i {
                assert(s[k] == e);
            } else {
                assert(s[k + 1] == e);
            }
        }
        if s.contains(e) && e != s[i] {
            let k = choose|k: int| 0 <= k < s.len() && s[k] == e;
            if k < i {
                assert(r[k] == e);
            } else {
                assert(r[k - 1] == e);
            }
        }
    }
}

/// Every index but `x`.
pub open spec fn not_edge(x: usize) -> spec_fn(usize) -> bool {
    |e: usize| e != x
}

/// Two tests that agree on the indices of a list choose the same indices.
pub proof fn lemma_filter_same(s: Seq<usize>, p: spec_fn(usize) -> bool, q: spec_fn(usize) -> bool)
    requires
        forall|i: int| 0 <= i < s.len() ==> p(#[trigger] s[i]) == q(s[i]),
    ensures
        s.filter(p) == s.filter(q),
    decreases s.len(),
{
    reveal(Seq::filter);
    if s.len() > 0 {
        assert forall|i: int| 0 <= i < s.drop_last().len() implies p(#[trigger] s.drop_last()[i])
            == q(s.drop_last()[i]) by {
            assert(s.drop_last()[i] == s[i]);
        }
        lemma_filter_same(s.drop_last(), p, q);
        assert(p(s.last()) == q(s.last())) by {
            assert(s.last() == s[s.len() - 1]);
        }
    }
}

/// A test that every index of a list passes chooses the whole list.
pub proof fn lemma_filter_all(s: Seq<usize>, p: spec_fn(usize) -> bool)
    requires
        forall|i: int| 0 <= i < s.len() ==> p(#[trigger] s[i]),
    ensures
        s.filter(p) == s,
    decreases s.len(),
{
    reveal(Seq::filter);
    if s.len() > 0 {
        assert forall|i: int| 0 <= i < s.drop_last().len() implies p(#[trigger] s.drop_last()[i]) by {
            assert(s.drop_last()[i] == s[i]);
        }
        lemma_filter_all(s.drop_last(), p);
        assert(p(s.last())) by {
            assert(s.last() == s[s.len() - 1]);
        }
        assert(s.drop_last().push(s.last()) =~= s);
    }
}

/// Choosing by one test and then by another is choosing by both.
pub proof fn lemma_filter_both(
    s: Seq<usize>,
    p: spec_fn(usize) -> bool,
    q: spec_fn(usize) -> bool,
    both: spec_fn(usize) -> bool,
)
    requires
        forall|i: int| 0 <= i < s.len() ==> both(#[trigger] s[i]) == (p(s[i]) && q(s[i])),
    ensures
        s.filter(p).filter(q) == s.filter(both),
    decreases s.len(),
{
    reveal(Seq::filter);
    if s.len() > 0 {
        let head = s.drop_last();
        assert forall|i: int| 0 <= i < head.len() implies both(#[trigger] head[i]) == (p(head[i])
            && q(head[i])) by {
            assert(head[i] == s[i]);
        }
        lemma_filter_both(head, p, q, both);
        assert(both(s.last()) == (p(s.last()) && q(s.last()))) by {
            assert(s.last() == s[s.len() - 1]);
        }
        if p(s.last()) {
            let chosen = head.filter(p);
            assert(chosen.push(s.last()).drop_last() =~= chosen);
        }
    }
}

/// Taking one index out of a list without repetitions leaves the indices
/// that differ from it, in their order.
pub proof fn lemma_remove_is_filter(s: Seq<usize>, i: int)
    requires
        s.no_duplicates(),
        0 <= i < s.len(),
    ensures
        s.remove(i) == s.filter(not_edge(s[i])),
    decreases s.len(),
{
    reveal(Seq::filter);
    let head = s.drop_last();
    let p = not_edge(s[i]);
    if i == s.len() - 1 {
        assert forall|k: int| 0 <= k < head.len() implies p(#[trigger] head[k]) by {
            assert(head[k] == s[k]);
        }
        lemma_filter_all(head, p);
        assert(s.remove(i) =~= head);
    } else {
        assert(head.no_duplicates());
        assert(head[i] == s[i]);
        lemma_remove_is_filter(head, i);
        assert(p(s.last())) by {
            assert(s[s.len() - 1] != s[i]);
        }
        assert(s.remove(i) =~= head.remove(i).push(s.last()));
    }
}

/// The number of the first `upto` edges that are visible and whose
/// vertices the plane parts, as the vertices `vertices` are classified.
pub open spec fn count_split(edges: Seq<ClipEdge>, vertices: Seq<ClipVertex>, upto: int) -> nat
    decreases upto,
{
    if upto <= 0 {
        0
    } else {
        count_split(edges, vertices, upto - 1) + if ClipMesh::edge_split(
            edges[upto - 1],
            vertices,
        ) {
            1nat
        } else {
            0nat
        }
    }
}

/// The count of the edges that the plane parts depends on the sides of
/// the vertices of the edges alone.
pub proof fn lemma_count_split_same(
    edges: Seq<ClipEdge>,
    first: Seq<ClipVertex>,
    second: Seq<ClipVertex>,
    upto: int,
)
    requires
        0 <= upto <= edges.len(),
        forall|k: int|
            0 <= k < upto ==> {
                let e = #[trigger] edges[k];
                &&& e.hd_vertex < first.len() && e.hd_vertex < second.len()
                &&& e.tl_vertex < first.len() && e.tl_vertex < second.len()
                &&& first[e.hd_vertex as int].side == second[e.hd_vertex as int].side
                &&& first[e.tl_vertex as int].side == second[e.tl_vertex as int].side
            },
    ensures
        count_split(edges, first, upto) == count_split(edges, second, upto),
    decreases upto,
{
    if upto > 0 {
        lemma_count_split_same(edges, first, second, upto - 1);
        let e = edges[upto - 1];
        assert(ClipMesh::edge_split(e, first) == ClipMesh::edge_split(e, second));
    }
}

/// The vertex at position `v` of `vertices` was made by cutting an edge
/// between a vertex clearly inside and a vertex clearly outside.
pub open spec fn cut_at(vertices: Seq<ClipVertex>, v: int) -> bool {
    let vertex = vertices[v];
    &&& vertex.visible
    &&& vertex.side == Side::Zero
    &&& match vertex.origin {
        VertexOrigin::Mesh(_) => false,
        VertexOrigin::Cut(a, b) => {
            &&& a < v && b < v
            &&& {
                ||| (vertices[a as int].side == Side::Positive && vertices[b as int].side
                    == Side::Negative)
                ||| (vertices[a as int].side == Side::Negative && vertices[b as int].side
                    == Side::Positive)
            }
        },
    }
}

impl ClipMesh {
    /// The edge `k` is visible and neither of its vertices lies clearly
    /// inside: it is cut away.
    pub open spec fn culled(&self, k: int) -> bool {
        &&& 0 <= k < self.edges@.len()
        &&& self.edges@[k].visible
        &&& self.vertices@[self.edges@[k].hd_vertex as int].side != Side::Positive
        &&& self.vertices@[self.edges@[k].tl_vertex as int].side != Side::Positive
    }

    /// The edge `k` is visible, and one of its vertices lies clearly inside
    /// and the other clearly outside: it is cut in two.
    pub open spec fn split(&self, k: int) -> bool {
        &&& 0 <= k < self.edges@.len()
        &&& self.edges@[k].visible
        &&& {
            let head = self.vertices@[self.edges@[k].hd_vertex as int].side;
            let tail = self.vertices@[self.edges@[k].tl_vertex as int].side;
            ||| (head == Side::Positive && tail == Side::Negative)
            ||| (head == Side::Negative && tail == Side::Positive)
        }
    }

    /// Some edge below `k` is cut away.
    pub open spec fn any_culled_below(&self, k: int) -> bool {
        exists|j: int| 0 <= j < k && #[trigger] self.culled(j)
    }

    /// Every vertex of a visible edge is visible or has just been found to
    /// lie clearly outside.
    pub open spec fn edge_ends_classified(&self) -> bool {
        forall|e: int|
            0 <= e < self.edges@.len() && (#[trigger] self.edges@[e]).visible ==> {
                let head = self.vertices@[self.edges@[e].hd_vertex as int];
                let tail = self.vertices@[self.edges@[e].tl_vertex as int];
                &&& (head.visible || head.side == Side::Negative)
                &&& (tail.visible || tail.side == Side::Negative)
            }
    }

    /// The vertex of the edge `after` that was made where the edge `k` of
    /// this mesh was cut.
    pub open spec fn cut_of(&self, after: ClipEdge, k: int) -> usize {
        if self.vertices@[self.edges@[k].hd_vertex as int].side == Side::Positive {
            after.tl_vertex
        } else {
            after.hd_vertex
        }
    }

    /// What the edge `k` of this mesh becomes: an edge that is cut away is
    /// hidden; of an edge that is cut in two, the vertex that lies outside
    /// is replaced by a new vertex at the cut; every other edge stays as it
    /// is.
    pub open spec fn edge_outcome(&self, k: int, after: ClipEdge, vertices: Seq<ClipVertex>) -> bool {
        let e0 = self.edges@[k];
        &&& after.faces == e0.faces
        &&& if self.culled(k) {
            !after.visible && after.hd_vertex == e0.hd_vertex && after.tl_vertex == e0.tl_vertex
        } else if self.split(k) {
            let cut = self.cut_of(after, k);
            &&& after.visible
            &&& self.vertices@[e0.hd_vertex as int].side == Side::Positive ==> after.hd_vertex
                == e0.hd_vertex
            &&& self.vertices@[e0.hd_vertex as int].side != Side::Positive ==> after.tl_vertex
                == e0.tl_vertex
            &&& self.vertices@.len() <= cut < vertices.len()
            &&& vertices[cut as int].origin == VertexOrigin::Cut(e0.hd_vertex, e0.tl_vertex)
        } else {
            after == e0
        }
    }

    /// The edge `e` of the list `list` is kept when the edges below `upto`
    /// that are cut away have been taken out.
    pub open spec fn kept(&self, list: Seq<usize>, e: usize, upto: int) -> bool {
        list.contains(e) && !(e < upto && self.culled(e as int))
    }

    /// The edges that are not cut away, as far as the edges below `upto`
    /// have been looked at.
    pub open spec fn keeps(&self, upto: int) -> spec_fn(usize) -> bool {
        |e: usize| !(e < upto && self.culled(e as int))
    }

    /// What the face `f` of this mesh becomes when the edges below `upto`
    /// have been looked at: it has lost the edges that were cut away and
    /// kept the others in their order, and is hidden if an edge was cut away
    /// and the face has no edge left.
    pub open spec fn face_outcome(&self, f: int, after: ClipFace, upto: int) -> bool {
        let f0 = self.faces@[f];
        &&& after.edges@.no_duplicates()
        &&& after.edges@ == f0.edges@.filter(self.keeps(upto))
        &&& forall|e: usize| #[trigger] after.edges@.contains(e) == self.kept(f0.edges@, e, upto)
        &&& after.visible == (f0.visible && !(self.any_culled_below(upto) && after.edges@.len()
            == 0))
    }

    /// Hides the edges that are cut away and takes them out of the faces;
    /// cuts the edges that the plane parts, making a new vertex for each.
    pub fn process_edges(&mut self)
        requires
            old(self).in_range(),
            old(self).faces_distinct(),
            old(self).face_edges_visible(),
            old(self).edge_ends_classified(),
        ensures
            final(self).well_formed(),
            final(self).edges@.len() == old(self).edges@.len(),
            final(self).faces@.len() == old(self).faces@.len(),
            final(self).vertices@.len() >= old(self).vertices@.len(),
            final(self).vertices@.len() == old(self).vertices@.len() + count_split(
                old(self).edges@,
                old(self).vertices@,
                old(self).edges@.len() as int,
            ),
            forall|i: int|
                0 <= i < old(self).vertices@.len() ==> final(self).vertices@[i] == old(self).vertices@[i],
            forall|i: int|
                old(self).vertices@.len() <= i < final(self).vertices@.len() ==> #[trigger] cut_at(
                    final(self).vertices@,
                    i,
                ),
            forall|k: int|
                0 <= k < old(self).edges@.len() ==> old(self).edge_outcome(
                    k,
                    #[trigger] final(self).edges@[k],
                    final(self).vertices@,
                ),
            forall|k: int, l: int|
                0 <= k < l < old(self).edges@.len() && old(self).split(k) && old(self).split(l)
                    ==> old(self).cut_of(final(self).edges@[k], k) < old(self).cut_of(
                    final(self).edges@[l],
                    l,
                ),
            forall|f: int|
                0 <= f < old(self).faces@.len() ==> old(self).face_outcome(
                    f,
                    #[trigger] final(self).faces@[f],
                    old(self).edges@.len() as int,
                ),
    {
        let edge_total = self.edges.len();
        let face_total = self.faces.len();
        let ghost vertex_total = self.vertices@.len();
        let ghost start = *self;
        assert forall|f: int| 0 <= f < face_total implies start.face_outcome(
            f,
            #[trigger] self.faces@[f],
            0,
        ) by {
            lemma_filter_all(start.faces@[f].edges@, start.keeps(0));
        }
        let mut k: usize = 0;
        while k < edge_total
            invariant
                start == *old(self),
                self.in_range(),
                start.in_range(),
                start.faces_distinct(),
                start.face_edges_visible(),
                start.edge_ends_classified(),
                edge_total == self.edges@.len(),
                edge_total == start.edges@.len(),
                face_total == self.faces@.len(),
                face_total == start.faces@.len(),
                vertex_total == start.vertices@.len(),
                k <= edge_total,
                self.vertices@.len() >= vertex_total,
                self.vertices@.len() == vertex_total + count_split(
                    start.edges@,
                    start.vertices@,
                    k as int,
                ),
                forall|i: int| 0 <= i < vertex_total ==> self.vertices@[i] == start.vertices@[i],
                forall|i: int|
                    vertex_total <= i < self.vertices@.len() ==> #[trigger] cut_at(self.vertices@, i),
                forall|j: int| k <= j < edge_total ==> self.edges@[j] == start.edges@[j],
                forall|j: int|
                    0 <= j < k ==> start.edge_outcome(j, #[trigger] self.edges@[j], self.vertices@),
                forall|j: int, l: int|
                    0 <= j < l < k && start.split(j) && start.split(l) ==> start.cut_of(
                        self.edges@[j],
                        j,
                    ) < start.cut_of(self.edges@[l], l),
                forall|f: int|
                    0 <= f < face_total ==> start.face_outcome(f, #[trigger] self.faces@[f], k as int),
            decreases edge_total - k,
        {
            let ghost entry = *self;
            proof {
                lemma_culled_below_step(&start, k as int);
            }
            if self.edges[k].visible {
                let hd = self.edges[k].hd_vertex;
                let tl = self.edges[k].tl_vertex;
                let head = self.vertices[hd].side;
                let tail = self.vertices[tl].side;
                assert(hd < vertex_total && tl < vertex_total);
                if head != Side::Positive && tail != Side::Positive {
                    // the edge is cut away: take it out of the faces that list it
                    assert(start.culled(k as int));
                    let mut f: usize = 0;
                    while f < face_total
                        invariant
                            self.in_range(),
                            start.in_range(),
                            start.culled(k as int),
                            start.any_culled_below(k + 1),
                            self.vertices == entry.vertices,
                            self.edges == entry.edges,
                            face_total == self.faces@.len(),
                            face_total == start.faces@.len(),
                            edge_total == self.edges@.len(),
                            edge_total == start.edges@.len(),
                            k < edge_total,
                            f <= face_total,
                            forall|g: int|
                                f <= g < face_total ==> start.face_outcome(
                                    g,
                                    #[trigger] self.faces@[g],
                                    k as int,
                                ),
                            forall|g: int|
                                0 <= g < f ==> start.face_outcome(g, #[trigger] self.faces@[g], k + 1),
                        decreases face_total - f,
                    {
                        let ghost faces_before = self.faces@;
                        let ghost list = self.faces@[f as int].edges@;
                        assert(start.face_outcome(f as int, self.faces@[f as int], k as int));
                        proof {
                            let list0 = start.faces@[f as int].edges@;
                            assert forall|i: int| 0 <= i < list0.len() implies start.keeps(k + 1)(
                                #[trigger] list0[i],
                            ) == (start.keeps(k as int)(list0[i]) && not_edge(k)(list0[i])) by {}
                            lemma_filter_both(
                                list0,
                                start.keeps(k as int),
                                not_edge(k),
                                start.keeps(k + 1),
                            );
                        }
                        match self.faces[f].edges.position(k) {
                            Some(at) => {
                                proof {
                                    lemma_remove_distinct(list, at as int);
                                    lemma_remove_is_filter(list, at as int);
                                }
                                self.faces[f].edges.remove(at);
                            },
                            None => {
                                proof {
                                    lemma_filter_all(list, not_edge(k));
                                }
                            },
                        }
                        if self.faces[f].edges.len() == 0 {
                            self.faces[f].visible = false;
                        }
                        proof {
                            let after = self.faces@[f as int].edges@;
                            let list0 = start.faces@[f as int].edges@;
                            assert forall|e: usize| #[trigger]
                                after.contains(e) == start.kept(list0, e, k + 1) by {
                                assert(list.contains(e) == start.kept(list0, e, k as int));
                            }
                            assert(after.len() <= list.len());
                            assert(start.face_outcome(f as int, self.faces@[f as int], k + 1));
                            assert forall|g: int| f < g < face_total implies start.face_outcome(
                                g,
                                #[trigger] self.faces@[g],
                                k as int,
                            ) by {
                                assert(self.faces@[g] == faces_before[g]);
                            }
                            assert forall|g: int| 0 <= g < f implies start.face_outcome(
                                g,
                                #[trigger] self.faces@[g],
                                k + 1,
                            ) by {
                                assert(self.faces@[g] == faces_before[g]);
                            }
                            assert forall|g: int| 0 <= g < face_total implies list_below(
                                (#[trigger] self.faces@[g]).edges@,
                                edge_total as int,
                            ) by {
                                if g != f {
                                    assert(self.faces@[g] == faces_before[g]);
                                } else {
                                    assert forall|q: int| 0 <= q < after.len() implies (
                                    #[trigger] after[q]) < edge_total by {
                                        assert(after.contains(after[q]));
                                        assert(list.contains(after[q]));
                                        let w = choose|w: int| 0 <= w < list.len() && list[w] == after[q];
                                        assert(list[w] < edge_total);
                                    }
                                }
                            }
                        }
                        f += 1;
                    }
                    self.edges[k].visible = false;
                } else if head != Side::Negative && tail != Side::Negative {
                    // the edge lies inside: the faces keep it
                    proof {
                        assert(!start.culled(k as int) && !start.split(k as int));
                        assert forall|f: int| 0 <= f < face_total implies start.face_outcome(
                            f,
                            #[trigger] self.faces@[f],
                            k + 1,
                        ) by {
                            assert(start.face_outcome(f, self.faces@[f], k as int));
                            let list0 = start.faces@[f].edges@;
                            lemma_filter_same(list0, start.keeps(k as int), start.keeps(k + 1));
                            assert forall|e: usize| #[trigger]
                                self.faces@[f].edges@.contains(e) == start.kept(list0, e, k + 1) by {
                                assert(self.faces@[f].edges@.contains(e) == start.kept(
                                    list0,
                                    e,
                                    k as int,
                                ));
                            }
                        }
                    }
                } else {
                    // the plane parts the edge: the vertex outside gives
                    // way to a new vertex at the cut
                    let fresh_idx = self.vertices.len();
                    self.vertices.push(
                        ClipVertex {
                            origin: VertexOrigin::Cut(hd, tl),
                            side: Side::Zero,
                            occurs: 0,
                            visible: true,
                        },
                    );
                    if head == Side::Positive {
                        self.edges[k].tl_vertex = fresh_idx;
                    } else {
                        self.edges[k].hd_vertex = fresh_idx;
                    }
                    proof {
                        assert(start.split(k as int) && !start.culled(k as int));
                        assert(cut_at(self.vertices@, fresh_idx as int));
                        assert forall|i: int|
                            vertex_total <= i < self.vertices@.len() implies #[trigger] cut_at(
                            self.vertices@,
                            i,
                        ) by {
                            if i < fresh_idx {
                                assert(cut_at(entry.vertices@, i));
                            }
                        }
                        assert forall|j: int| 0 <= j < k implies start.edge_outcome(
                            j,
                            #[trigger] self.edges@[j],
                            self.vertices@,
                        ) by {
                            assert(self.edges@[j] == entry.edges@[j]);
                            assert(start.edge_outcome(j, entry.edges@[j], entry.vertices@));
                        }
                        assert forall|f: int| 0 <= f < face_total implies start.face_outcome(
                            f,
                            #[trigger] self.faces@[f],
                            k + 1,
                        ) by {
                            assert(start.face_outcome(f, self.faces@[f], k as int));
                            let list0 = start.faces@[f].edges@;
                            lemma_filter_same(list0, start.keeps(k as int), start.keeps(k + 1));
                            assert forall|e: usize| #[trigger]
                                self.faces@[f].edges@.contains(e) == start.kept(list0, e, k + 1) by {
                                assert(self.faces@[f].edges@.contains(e) == start.kept(
                                    list0,
                                    e,
                                    k as int,
                                ));
                            }
                        }
                        assert(start.cut_of(self.edges@[k as int], k as int) == fresh_idx);
                        assert forall|j: int, l: int|
                            0 <= j < l < k + 1 && start.split(j) && start.split(l) implies start.cut_of(
                            self.edges@[j],
                            j,
                        ) < start.cut_of(self.edges@[l], l) by {
                            assert(self.edges@[j] == entry.edges@[j]);
                            assert(start.edge_outcome(j, entry.edges@[j], entry.vertices@));
                            if l < k {
                                assert(self.edges@[l] == entry.edges@[l]);
                            }
                        }
                    }
                }
            } else {
                proof {
                    assert(!start.culled(k as int) && !start.split(k as int));
                    assert forall|f: int| 0 <= f < face_total implies start.face_outcome(
                        f,
                        #[trigger] self.faces@[f],
                        k + 1,
                    ) by {
                        assert(start.face_outcome(f, self.faces@[f], k as int));
                        let list0 = start.faces@[f].edges@;
                        lemma_filter_same(list0, start.keeps(k as int), start.keeps(k + 1));
                        assert forall|e: usize| #[trigger]
                            self.faces@[f].edges@.contains(e) == start.kept(list0, e, k + 1) by {
                            assert(self.faces@[f].edges@.contains(e) == start.kept(list0, e, k as int));
                        }
                    }
                }
            }
            proof {
                assert forall|j: int| 0 <= j < k + 1 implies start.edge_outcome(
                    j,
                    #[trigger] self.edges@[j],
                    self.vertices@,
                ) by {
                    if j < k {
                        assert(self.edges@[j] == entry.edges@[j]);
                        assert(start.edge_outcome(j, entry.edges@[j], entry.vertices@));
                    }
                }
                assert forall|j: int, l: int|
                    0 <= j < l < k + 1 && start.split(j) && start.split(l) implies start.cut_of(
                    self.edges@[j],
                    j,
                ) < start.cut_of(self.edges@[l], l) by {
                    assert(self.edges@[j] == entry.edges@[j]);
                    assert(start.edge_outcome(j, entry.edges@[j], entry.vertices@));
                    if l < k {
                        assert(self.edges@[l] == entry.edges@[l]);
                    }
                }
            }
            k += 1;
        }
        proof {
            assert forall|e: int|
                0 <= e < self.edges@.len() && (#[trigger] self.edges@[e]).visible implies {
                &&& self.vertices@[self.edges@[e].hd_vertex as int].visible
                &&& self.vertices@[self.edges@[e].tl_vertex as int].visible
            } by {
                assert(start.edge_outcome(e, self.edges@[e], self.vertices@));
                assert(start.edges@[e].visible);
                if start.split(e) {
                    assert(cut_at(self.vertices@, start.cut_of(self.edges@[e], e) as int));
                }
            }
            assert forall|f: int, j: int|
                0 <= f < self.faces@.len() && self.faces@[f].visible && 0 <= j
                    < self.faces@[f].edges@.len() implies self.edges@[(
            #[trigger] self.faces@[f].edges@[j]) as int].visible by {
                assert(start.face_outcome(f, self.faces@[f], edge_total as int));
                let e = self.faces@[f].edges@[j];
                assert(self.faces@[f].edges@.contains(e));
                assert(start.kept(start.faces@[f].edges@, e, edge_total as int));
                let j0 = choose|j0: int|
                    0 <= j0 < start.faces@[f].edges@.len() && start.faces@[f].edges@[j0] == e;
                assert(start.edges@[start.faces@[f].edges@[j0] as int].visible);
                assert(start.edge_outcome(e as int, self.edges@[e as int], self.vertices@));
            }
            assert forall|f: int| 0 <= f < self.faces@.len() implies (
            #[trigger] self.faces@[f]).edges@.no_duplicates() by {
                assert(start.face_outcome(f, self.faces@[f], edge_total as int));
            }
        }
    }
}

/// Below `k + 1` an edge is cut away exactly if one is below `k`, or `k`
/// itself is.
pub proof fn lemma_culled_below_step(mesh: &ClipMesh, k: int)
    ensures
        mesh.any_culled_below(k + 1) == (mesh.any_culled_below(k) || mesh.culled(k)),
{
    if mesh.any_culled_below(k + 1) {
        let j = choose|j: int| 0 <= j < k + 1 && #[trigger] mesh.culled(j);
        if j < k {
            assert(mesh.any_culled_below(k));
        }
    }
    if mesh.any_culled_below(k) {
        let j = choose|j: int| 0 <= j < k && #[trigger] mesh.culled(j);
        assert(mesh.culled(j) && j < k + 1);
    }
    if mesh.culled(k) {
        assert(0 <= k);
        assert(mesh.any_culled_below(k + 1));
    }
}


impl ClipMesh {
    /// What `process_faces` makes of the face `f` of this mesh: a visible
    /// face whose edges form an open polyline gets one new edge that joins
    /// the two ends and lies in this face and in the closing face `close`;
    /// every other face stays as it is.
    pub open spec fn face_closed(&self, f: int, after: ClipFace, edges: Seq<ClipEdge>, close: int) -> bool {
        let f0 = self.faces@[f];
        let ends = if f0.visible {
            Self::open_ends(self.endpoints(f0.edges@))
        } else {
            None
        };
        &&& after.visible == f0.visible
        &&& match ends {
            Some((start, end)) => {
                let e = after.edges@.last() as int;
                &&& after.edges@.len() == f0.edges@.len() + 1
                &&& after.edges@.drop_last() == f0.edges@
                &&& self.edges@.len() <= e < edges.len()
                &&& edges[e].hd_vertex == start
                &&& edges[e].tl_vertex == end
                &&& edges[e].visible
                &&& edges[e].faces@ == seq![f as usize, close as usize]
            },
            None => after.edges@ == f0.edges@,
        }
    }

    /// The edge `k` closes a face: it lies in that face and in the closing
    /// face `close`, and it is the last edge of the face it closes.
    pub open spec fn closes_a_face(&self, close: int, k: int) -> bool {
        let e = self.edges@[k];
        &&& e.faces@.len() == 2
        &&& e.faces@[1] == close
        &&& e.faces@[0] <= close
        &&& e.faces@[0] < self.faces@.len()
        &&& self.faces@[e.faces@[0] as int].edges@.len() >= 1
        &&& self.faces@[e.faces@[0] as int].edges@.last() == k
    }

    /// The closing face `close` has got an edge of its own exactly if the
    /// edges that close the other faces form an open polyline, and that
    /// edge joins the two ends.
    pub open spec fn closing_face_closed(&self, close: int) -> bool {
        let list = self.faces@[close].edges@;
        let own = list.len() > 0 && self.edges@[list.last() as int].faces@[0] == close;
        let others = if own {
            list.drop_last()
        } else {
            list
        };
        &&& own == (Self::open_ends(self.endpoints(others)) is Some)
        &&& own ==> {
            let ends = Self::open_ends(self.endpoints(others))->Some_0;
            &&& self.edges@[list.last() as int].hd_vertex == ends.0
            &&& self.edges@[list.last() as int].tl_vertex == ends.1
        }
    }

    /// The vertices of `after` are those of this mesh, but for what they
    /// hold in `occurs`.
    pub open spec fn same_vertices(&self, after: Seq<ClipVertex>) -> bool {
        &&& after.len() == self.vertices@.len()
        &&& forall|i: int|
            0 <= i < after.len() ==> {
                &&& (#[trigger] after[i]).origin == self.vertices@[i].origin
                &&& after[i].side == self.vertices@[i].side
                &&& after[i].visible == self.vertices@[i].visible
            }
    }

    /// Adds a visible edge from `start` to `end` to the face `face_idx`
    /// and to the closing face `close_face_idx`.
    pub fn add_closing_edge(&mut self, face_idx: usize, close_face_idx: usize, start: usize, end: usize)
        requires
            old(self).well_formed(),
            face_idx < old(self).faces@.len(),
            close_face_idx < old(self).faces@.len(),
            start < old(self).vertices@.len(),
            end < old(self).vertices@.len(),
            old(self).vertices@[start as int].visible,
            old(self).vertices@[end as int].visible,
        ensures
            final(self).well_formed(),
            final(self).vertices == old(self).vertices,
            final(self).edges@.len() == old(self).edges@.len() + 1,
            forall|k: int|
                0 <= k < old(self).edges@.len() ==> final(self).edges@[k] == old(self).edges@[k],
            final(self).edges@.last().hd_vertex == start,
            final(self).edges@.last().tl_vertex == end,
            final(self).edges@.last().visible,
            final(self).edges@.last().faces@ == seq![face_idx, close_face_idx],
            final(self).faces@.len() == old(self).faces@.len(),
            forall|f: int|
                0 <= f < old(self).faces@.len() ==> {
                    &&& (#[trigger] final(self).faces@[f]).visible == old(self).faces@[f].visible
                    &&& final(self).faces@[f].edges@ == if f == face_idx || f == close_face_idx {
                        old(self).faces@[f].edges@.push(old(self).edges@.len() as usize)
                    } else {
                        old(self).faces@[f].edges@
                    }
                },
    {
        let mut edge_faces = IndexList::new();
        edge_faces.push(face_idx);
        edge_faces.push(close_face_idx);
        assert(edge_faces@ =~= seq![face_idx, close_face_idx]);
        let fresh_edge_idx = self.edges.len();
        self.edges.push(
            ClipEdge { hd_vertex: start, tl_vertex: end, faces: edge_faces, visible: true },
        );
        self.faces[face_idx].edges.push(fresh_edge_idx);
        if face_idx != close_face_idx {
            self.faces[close_face_idx].edges.push(fresh_edge_idx);
        }
        proof {
            assert forall|f: int| 0 <= f < self.faces@.len() implies {
                &&& (#[trigger] self.faces@[f]).visible == old(self).faces@[f].visible
                &&& self.faces@[f].edges@ == if f == face_idx || f == close_face_idx {
                    old(self).faces@[f].edges@.push(fresh_edge_idx)
                } else {
                    old(self).faces@[f].edges@
                }
            } by {}
            assert forall|f: int| 0 <= f < self.faces@.len() implies (
            #[trigger] self.faces@[f]).edges@.no_duplicates() && list_below(
                self.faces@[f].edges@,
                self.edges@.len() as int,
            ) by {
                let was = old(self).faces@[f].edges@;
                assert(was.no_duplicates());
                assert(list_below(was, fresh_edge_idx as int));
            }
            assert forall|f: int, j: int|
                0 <= f < self.faces@.len() && self.faces@[f].visible && 0 <= j
                    < self.faces@[f].edges@.len() implies self.edges@[(
            #[trigger] self.faces@[f].edges@[j]) as int].visible by {
                let was = old(self).faces@[f].edges@;
                if j < was.len() {
                    assert(old(self).edges@[old(self).faces@[f].edges@[j] as int].visible);
                }
            }
            assert forall|e: int|
                0 <= e < self.edges@.len() && (#[trigger] self.edges@[e]).visible implies {
                &&& self.vertices@[self.edges@[e].hd_vertex as int].visible
                &&& self.vertices@[self.edges@[e].tl_vertex as int].visible
            } by {
                if e < fresh_edge_idx {
                    assert(self.edges@[e] == old(self).edges@[e]);
                }
            }
            assert forall|e: int| 0 <= e < self.edges@.len() implies {
                &&& (#[trigger] self.edges@[e]).hd_vertex < self.vertices@.len()
                &&& self.edges@[e].tl_vertex < self.vertices@.len()
                &&& list_below(self.edges@[e].faces@, self.faces@.len() as int)
            } by {
                if e < fresh_edge_idx {
                    assert(self.edges@[e] == old(self).edges@[e]);
                }
            }
        }
    }

    /// A face that has been closed stays closed when edges are added to the
    /// mesh and the face itself is left alone.
    pub proof fn lemma_face_closed_stable(
        &self,
        f: int,
        before: ClipFace,
        after: ClipFace,
        edges_before: Seq<ClipEdge>,
        edges_after: Seq<ClipEdge>,
        close: int,
    )
        requires
            self.face_closed(f, before, edges_before, close),
            after.edges@ == before.edges@,
            after.visible == before.visible,
            edges_before.len() <= edges_after.len(),
            forall|k: int| 0 <= k < edges_before.len() ==> edges_after[k] == edges_before[k],
        ensures
            self.face_closed(f, after, edges_after, close),
    {
    }

    /// Closes the face `face_idx` if it is visible and its edges form an
    /// open polyline: a new edge joins the two ends and lies in this face
    /// and in the closing face `close_face_idx`. Returns whether an edge was
    /// added.
    pub fn close_face(&mut self, face_idx: usize, close_face_idx: usize) -> (added: bool)
        requires
            old(self).well_formed(),
            face_idx < old(self).faces@.len(),
            close_face_idx < old(self).faces@.len(),
        ensures
            final(self).well_formed(),
            old(self).same_vertices(final(self).vertices@),
            final(self).faces@.len() == old(self).faces@.len(),
            forall|k: int|
                0 <= k < old(self).edges@.len() ==> final(self).edges@[k] == old(self).edges@[k],
            added == (old(self).faces@[face_idx as int].visible && Self::open_ends(
                old(self).endpoints(old(self).faces@[face_idx as int].edges@),
            ) is Some),
            final(self).edges@.len() == old(self).edges@.len() + if added { 1int } else { 0int },
            added ==> {
                let ends = Self::open_ends(
                    old(self).endpoints(old(self).faces@[face_idx as int].edges@),
                )->Some_0;
                &&& final(self).edges@.last().hd_vertex == ends.0
                &&& final(self).edges@.last().tl_vertex == ends.1
                &&& final(self).edges@.last().visible
                &&& final(self).edges@.last().faces@ == seq![face_idx, close_face_idx]
            },
            forall|f: int|
                0 <= f < old(self).faces@.len() ==> {
                    &&& (#[trigger] final(self).faces@[f]).visible == old(self).faces@[f].visible
                    &&& final(self).faces@[f].edges@ == if added && (f == face_idx || f
                        == close_face_idx) {
                        old(self).faces@[f].edges@.push(old(self).edges@.len() as usize)
                    } else {
                        old(self).faces@[f].edges@
                    }
                },
    {
        if !self.faces[face_idx].visible {
            return false;
        }
        let ghost list = self.faces@[face_idx as int].edges@;
        let ghost points = self.endpoints(list);
        let found = self.get_open_polyline(face_idx);
        proof {
            assert(self.in_range());
            assert(self.edge_ends_visible());
        }
        match found {
            Some((start, end)) => {
                proof {
                    let ia = choose|i: int| 0 <= i < points.len() && points[i] == start;
                    let ib = choose|i: int| 0 <= i < points.len() && points[i] == end;
                    assert(self.edges@[self.faces@[face_idx as int].edges@[ia / 2] as int].visible);
                    assert(self.edges@[self.faces@[face_idx as int].edges@[ib / 2] as int].visible);
                    assert(self.vertices@[start as int].visible);
                    assert(self.vertices@[end as int].visible);
                }
                self.add_closing_edge(face_idx, close_face_idx, start, end);
                true
            },
            None => false,
        }
    }

    /// Closes the mesh where edges were cut away: every visible face whose
    /// edges form an open polyline gets a new edge between the two ends, and
    /// the new edges together bound a new face, the last of the mesh.
    pub fn process_faces(&mut self)
        requires
            old(self).well_formed(),
        ensures
            final(self).well_formed(),
            old(self).same_vertices(final(self).vertices@),
            final(self).faces@.len() == old(self).faces@.len() + 1,
            final(self).edges@.len() >= old(self).edges@.len(),
            forall|k: int|
                0 <= k < old(self).edges@.len() ==> final(self).edges@[k] == old(self).edges@[k],
            forall|k: int|
                old(self).edges@.len() <= k < final(self).edges@.len() ==> (
                #[trigger] final(self).edges@[k]).visible,
            forall|f: int|
                0 <= f < old(self).faces@.len() ==> old(self).face_closed(
                    f,
                    #[trigger] final(self).faces@[f],
                    final(self).edges@,
                    old(self).faces@.len() as int,
                ),
            final(self).faces@.last().visible,
            final(self).faces@.last().edges@ == Seq::new(
                (final(self).edges@.len() - old(self).edges@.len()) as nat,
                |i: int| (old(self).edges@.len() + i) as usize,
            ),
            forall|k: int|
                old(self).edges@.len() <= k < final(self).edges@.len() ==> #[trigger] final(self).closes_a_face(
                    old(self).faces@.len() as int,
                    k,
                ),
            final(self).closing_face_closed(old(self).faces@.len() as int),
    {
        let ghost start_mesh = *self;
        let close_face_idx = self.faces.len();
        let edge_base = self.edges.len();
        self.faces.push(ClipFace { edges: IndexList::new(), visible: true });
        let face_total = self.faces.len();
        proof {
            assert(self.face_edges_visible()) by {
                assert forall|f: int, j: int|
                    0 <= f < self.faces@.len() && self.faces@[f].visible && 0 <= j
                        < self.faces@[f].edges@.len() implies self.edges@[(
                #[trigger] self.faces@[f].edges@[j]) as int].visible by {
                    if f < close_face_idx {
                        assert(self.faces@[f] == start_mesh.faces@[f]);
                        assert(start_mesh.edges@[start_mesh.faces@[f].edges@[j] as int].visible);
                    }
                }
            }
            assert(self.faces@[close_face_idx as int].edges@ =~= Seq::new(
                0,
                |i: int| (edge_base + i) as usize,
            ));
        }
        let mut face_idx: usize = 0;
        while face_idx < face_total
            invariant
                start_mesh == *old(self),
                start_mesh.in_range(),
                self.well_formed(),
                start_mesh.same_vertices(self.vertices@),
                close_face_idx == start_mesh.faces@.len(),
                edge_base == start_mesh.edges@.len(),
                face_total == close_face_idx + 1,
                face_total == self.faces@.len(),
                face_idx <= face_total,
                self.edges@.len() >= edge_base,
                forall|k: int| 0 <= k < edge_base ==> self.edges@[k] == start_mesh.edges@[k],
                forall|k: int| edge_base <= k < self.edges@.len() ==> (#[trigger] self.edges@[k]).visible,
                forall|f: int|
                    face_idx <= f < close_face_idx ==> (#[trigger] self.faces@[f]).edges@
                        == start_mesh.faces@[f].edges@ && self.faces@[f].visible
                        == start_mesh.faces@[f].visible,
                forall|f: int|
                    0 <= f < face_idx && f < close_face_idx ==> start_mesh.face_closed(
                        f,
                        #[trigger] self.faces@[f],
                        self.edges@,
                        close_face_idx as int,
                    ),
                self.faces@[close_face_idx as int].visible,
                self.faces@[close_face_idx as int].edges@ == Seq::new(
                    (self.edges@.len() - edge_base) as nat,
                    |i: int| (edge_base + i) as usize,
                ),
                forall|k: int|
                    edge_base <= k < self.edges@.len() ==> #[trigger] self.closes_a_face(
                        close_face_idx as int,
                        k,
                    ),
                forall|k: int|
                    edge_base <= k < self.edges@.len() ==> (#[trigger] self.edges@[k]).faces@[0]
                        < face_idx,
                face_idx == face_total ==> self.closing_face_closed(close_face_idx as int),
            decreases face_total - face_idx,
        {
            let ghost entry = *self;
            let edge_count = self.edges.len();
            let added = self.close_face(face_idx, close_face_idx);
            proof {
                if face_idx == close_face_idx {
                    let list = entry.faces@[close_face_idx as int].edges@;
                    assert(entry.endpoints(list) =~= self.endpoints(list)) by {
                        assert forall|i: int| 0 <= i < 2 * list.len() implies entry.endpoints(
                            list,
                        )[i] == self.endpoints(list)[i] by {
                            assert(list[i / 2] < entry.edges@.len());
                            assert(self.edges@[list[i / 2] as int] == entry.edges@[list[i / 2] as int]);
                        }
                    }
                    if added {
                        let now = self.faces@[close_face_idx as int].edges@;
                        assert(now == list.push(entry.edges@.len() as usize));
                        assert(now.drop_last() =~= list);
                        assert(self.edges@[now.last() as int] == self.edges@.last());
                    } else {
                        if list.len() > 0 {
                            assert(list.last() == edge_base + list.len() - 1);
                            assert(entry.edges@[list.last() as int].faces@[0] < face_idx);
                            assert(self.edges@[list.last() as int] == entry.edges@[list.last() as int]);
                        }
                    }
                    assert(self.closing_face_closed(close_face_idx as int));
                }
                assert forall|k: int| edge_base <= k < self.edges@.len() implies (
                #[trigger] self.edges@[k]).faces@[0] < face_idx + 1 by {
                    if k < entry.edges@.len() {
                        assert(self.edges@[k] == entry.edges@[k]);
                    } else {
                        assert(self.edges@[k] == self.edges@.last());
                    }
                }
                assert forall|k: int| edge_base <= k < self.edges@.len() implies #[trigger] self.closes_a_face(
                    close_face_idx as int,
                    k,
                ) by {
                    if k < entry.edges@.len() {
                        assert(entry.closes_a_face(close_face_idx as int, k));
                        assert(self.edges@[k] == entry.edges@[k]);
                        let f = entry.edges@[k].faces@[0] as int;
                        if f == close_face_idx {
                        } else {
                            assert(self.faces@[f].edges@ == entry.faces@[f].edges@);
                        }
                    } else {
                        assert(self.edges@[k] == self.edges@.last());
                    }
                }
                assert(entry.edges@.len() as usize == edge_count);
                assert(self.faces@[close_face_idx as int].edges@ =~= Seq::new(
                    (self.edges@.len() - edge_base) as nat,
                    |i: int| (edge_base + i) as usize,
                ));
                assert forall|k: int| edge_base <= k < self.edges@.len() implies (
                #[trigger] self.edges@[k]).visible by {
                    if k < entry.edges@.len() {
                        assert(self.edges@[k] == entry.edges@[k]);
                    }
                }
                assert forall|f: int|
                    0 <= f < face_idx + 1 && f < close_face_idx implies start_mesh.face_closed(
                    f,
                    #[trigger] self.faces@[f],
                    self.edges@,
                    close_face_idx as int,
                ) by {
                    if f < face_idx {
                        start_mesh.lemma_face_closed_stable(
                            f,
                            entry.faces@[f],
                            self.faces@[f],
                            entry.edges@,
                            self.edges@,
                            close_face_idx as int,
                        );
                    } else {
                        let list = entry.faces@[f].edges@;
                        assert(list == start_mesh.faces@[f].edges@);
                        assert(entry.endpoints(list) =~= start_mesh.endpoints(list)) by {
                            assert forall|i: int| 0 <= i < 2 * list.len() implies entry.endpoints(
                                list,
                            )[i] == start_mesh.endpoints(list)[i] by {
                                assert(list[i / 2] < edge_base);
                            }
                        }
                        let f0 = start_mesh.faces@[f];
                        assert(self.faces@[f].visible == f0.visible);
                        let ends = Self::open_ends(start_mesh.endpoints(f0.edges@));
                        if added {
                            assert(f0.visible && ends is Some);
                            assert(self.faces@[f].edges@ == list.push(entry.edges@.len() as usize));
                            assert(self.faces@[f].edges@.drop_last() =~= list);
                            assert(self.faces@[f].edges@.last() == entry.edges@.len());
                            assert(self.edges@.last() == self.edges@[entry.edges@.len() as int]);
                            assert(self.edges@.last().faces@ == seq![f as usize, close_face_idx]);
                        } else {
                            assert(!f0.visible || ends is None);
                            assert(self.faces@[f].edges@ == list);
                        }
                    }
                }
            }
            face_idx += 1;
        }
    }
}


impl ClipMesh {
    /// The edge `e0`, as the vertices `vertices` are classified, is visible
    /// and neither of its vertices lies clearly inside.
    pub open spec fn edge_culled(e0: ClipEdge, vertices: Seq<ClipVertex>) -> bool {
        &&& e0.visible
        &&& vertices[e0.hd_vertex as int].side != Side::Positive
        &&& vertices[e0.tl_vertex as int].side != Side::Positive
    }

    /// The edge `e0`, as the vertices `vertices` are classified, is visible
    /// and the plane parts its vertices.
    pub open spec fn edge_split(e0: ClipEdge, vertices: Seq<ClipVertex>) -> bool {
        let head = vertices[e0.hd_vertex as int].side;
        let tail = vertices[e0.tl_vertex as int].side;
        &&& e0.visible
        &&& {
            ||| (head == Side::Positive && tail == Side::Negative)
            ||| (head == Side::Negative && tail == Side::Positive)
        }
    }

    /// What a clip that parts the mesh makes of the edge `k` of `before`,
    /// where `self` is the mesh after the clip: an edge without a vertex
    /// clearly inside is hidden; of an edge that the plane parts, the vertex
    /// outside is replaced by a new vertex at the cut; every other edge
    /// stays as it is.
    pub open spec fn edge_clipped(&self, before: &ClipMesh, k: int) -> bool {
        let e0 = before.edges@[k];
        let e1 = self.edges@[k];
        &&& e1.faces == e0.faces
        &&& if Self::edge_culled(e0, self.vertices@) {
            !e1.visible && e1.hd_vertex == e0.hd_vertex && e1.tl_vertex == e0.tl_vertex
        } else if Self::edge_split(e0, self.vertices@) {
            let inside_head = self.vertices@[e0.hd_vertex as int].side == Side::Positive;
            let cut = if inside_head { e1.tl_vertex } else { e1.hd_vertex };
            &&& e1.visible
            &&& inside_head ==> e1.hd_vertex == e0.hd_vertex
            &&& !inside_head ==> e1.tl_vertex == e0.tl_vertex
            &&& before.vertices@.len() <= cut < self.vertices@.len()
            &&& self.vertices@[cut as int].origin == VertexOrigin::Cut(e0.hd_vertex, e0.tl_vertex)
        } else {
            e1 == e0
        }
    }

    /// The edges of `edges` that are not cut away, as the vertices
    /// `vertices` are classified.
    pub open spec fn survives(edges: Seq<ClipEdge>, vertices: Seq<ClipVertex>) -> spec_fn(
        usize,
    ) -> bool {
        |e: usize| !Self::edge_culled(edges[e as int], vertices)
    }

    /// The last edge of `list` is none of the first `old_edges` edges.
    pub open spec fn ends_new(list: Seq<usize>, old_edges: int) -> bool {
        list.len() > 0 && list.last() >= old_edges
    }

    /// The list `list` without its last edge, if that is none of the first
    /// `old_edges` edges.
    pub open spec fn old_part(list: Seq<usize>, old_edges: int) -> Seq<usize> {
        if Self::ends_new(list, old_edges) {
            list.drop_last()
        } else {
            list
        }
    }

    /// What a clip that parts the mesh makes of the face `f` of `before`,
    /// where `self` is the mesh after the clip.
    ///
    /// Of the edges that the face had, it keeps those that were not cut
    /// away, in their order. It is hidden if an edge of the mesh was cut away and the face
    /// kept none. If it is visible and the edges it kept form an open
    /// polyline, one new edge follows them, which joins the two ends and
    /// lies in this face and in the closing face.
    pub open spec fn face_clipped(&self, before: &ClipMesh, f: int) -> bool {
        let old_edges = before.edges@.len();
        let list = self.faces@[f].edges@;
        let closed = Self::ends_new(list, old_edges as int);
        let kept = Self::old_part(list, old_edges as int);
        let any_culled = exists|k: int|
            0 <= k < old_edges && Self::edge_culled(#[trigger] before.edges@[k], self.vertices@);
        &&& list.no_duplicates()
        &&& kept == before.faces@[f].edges@.filter(Self::survives(before.edges@, self.vertices@))
        &&& forall|e: usize| #[trigger]
            kept.contains(e) == (before.faces@[f].edges@.contains(e) && !Self::edge_culled(
                before.edges@[e as int],
                self.vertices@,
            ))
        &&& self.faces@[f].visible == (before.faces@[f].visible && !(any_culled && kept.len() == 0))
        &&& closed == (self.faces@[f].visible && Self::open_ends(self.endpoints(kept)) is Some)
        &&& closed ==> {
            let ends = Self::open_ends(self.endpoints(kept))->Some_0;
            let e = self.edges@[list.last() as int];
            &&& list.last() < self.edges@.len()
            &&& e.visible
            &&& e.hd_vertex == ends.0
            &&& e.tl_vertex == ends.1
            &&& e.faces@ == seq![f as usize, before.faces@.len() as usize]
        }
    }

    /// What `clip_by` has done when the plane parts the mesh.
    pub open spec fn parted(&self, before: &ClipMesh) -> bool {
        &&& self.faces@.len() == before.faces@.len() + 1
        &&& self.edges@.len() >= before.edges@.len()
        &&& forall|k: int| 0 <= k < before.edges@.len() ==> #[trigger] self.edge_clipped(before, k)
        &&& forall|k: int|
            before.edges@.len() <= k < self.edges@.len() ==> (#[trigger] self.edges@[k]).visible
        &&& forall|f: int| 0 <= f < before.faces@.len() ==> #[trigger] self.face_clipped(before, f)
        &&& self.faces@.last().visible
        &&& self.faces@.last().edges@ == Seq::new(
            (self.edges@.len() - before.edges@.len()) as nat,
            |i: int| (before.edges@.len() + i) as usize,
        )
    }

    /// Nothing was added to a mesh that the plane parts but the cuts and
    /// what closes them: one new vertex for every edge that the plane
    /// parts, and new edges of which each closes a face; the closing face
    /// has an edge of its own exactly if the others leave it open.
    pub open spec fn cut_closed(&self, before: &ClipMesh) -> bool {
        &&& self.vertices@.len() == before.vertices@.len() + count_split(
            before.edges@,
            self.vertices@,
            before.edges@.len() as int,
        )
        &&& forall|k: int|
            before.edges@.len() <= k < self.edges@.len() ==> #[trigger] self.closes_a_face(
                before.faces@.len() as int,
                k,
            )
        &&& self.closing_face_closed(before.faces@.len() as int)
    }

    /// What `clip_by` has done when every vertex that was still visible
    /// lies outside or on the plane: every edge and every face is hidden,
    /// and nothing else has changed.
    pub open spec fn all_hidden(&self, before: &ClipMesh) -> bool {
        &&& self.vertices@.len() == before.vertices@.len()
        &&& self.edges@.len() == before.edges@.len()
        &&& self.faces@.len() == before.faces@.len()
        &&& forall|k: int|
            0 <= k < self.edges@.len() ==> {
                &&& !(#[trigger] self.edges@[k]).visible
                &&& self.edges@[k].hd_vertex == before.edges@[k].hd_vertex
                &&& self.edges@[k].tl_vertex == before.edges@[k].tl_vertex
                &&& self.edges@[k].faces == before.edges@[k].faces
            }
        &&& forall|f: int|
            0 <= f < self.faces@.len() ==> {
                &&& !(#[trigger] self.faces@[f]).visible
                &&& self.faces@[f].edges == before.faces@[f].edges
            }
    }

    /// Clips the mesh by a plane. `sides` tells for every vertex, visible
    /// or not, where it lies relative to the plane.
    ///
    /// The vertices clearly outside are hidden. If there are none, nothing
    /// else changes. If no visible vertex lies clearly inside, every edge
    /// and every face is hidden. Otherwise the edges without a vertex
    /// clearly inside are cut away, the edges that the plane parts end in a
    /// new vertex at the cut, and the cut is closed by new edges and one new
    /// face.
    pub fn clip_by(&mut self, sides: &Vec<Side>) -> (result: ProcessVertexResult)
        requires
            old(self).well_formed(),
            sides@.len() == old(self).vertices@.len(),
        ensures
            final(self).well_formed(),
            result == classify(
                exists|i: int|
                    0 <= i < sides@.len() && old(self).vertices@[i].visible && #[trigger] sides@[i]
                        == Side::Positive,
                exists|i: int|
                    0 <= i < sides@.len() && old(self).vertices@[i].visible && #[trigger] sides@[i]
                        == Side::Negative,
            ),
            final(self).vertices@.len() >= old(self).vertices@.len(),
            forall|i: int|
                0 <= i < old(self).vertices@.len() ==> {
                    let before = old(self).vertices@[i];
                    let after = #[trigger] final(self).vertices@[i];
                    &&& after.origin == before.origin
                    &&& after.visible == (before.visible && sides@[i] != Side::Negative)
                    &&& after.side == if before.visible { sides@[i] } else { before.side }
                },
            forall|i: int|
                old(self).vertices@.len() <= i < final(self).vertices@.len() ==> #[trigger] cut_at(
                    final(self).vertices@,
                    i,
                ),
            match result {
                ProcessVertexResult::NoneClipped => {
                    &&& final(self).edges == old(self).edges
                    &&& final(self).faces == old(self).faces
                    &&& final(self).vertices@.len() == old(self).vertices@.len()
                },
                ProcessVertexResult::AllClipped => final(self).all_hidden(old(self)),
                ProcessVertexResult::PartiallyClipped => final(self).parted(old(self))
                    && final(self).cut_closed(old(self)),
            },
    {
        let ghost before = *self;
        let result = self.process_vertices(sides);
        let ghost classified = *self;
        match result {
            ProcessVertexResult::NoneClipped => {
                proof {
                    assert forall|i: int| 0 <= i < sides@.len() implies !(before.vertices@[i].visible
                        && #[trigger] sides@[i] == Side::Negative) by {}
                    assert(self.edge_ends_visible()) by {
                        assert forall|e: int|
                            0 <= e < self.edges@.len() && (#[trigger] self.edges@[e]).visible implies {
                            &&& self.vertices@[self.edges@[e].hd_vertex as int].visible
                            &&& self.vertices@[self.edges@[e].tl_vertex as int].visible
                        } by {
                            assert(before.edges@[e].visible);
                        }
                    }
                }
                return result;
            },
            ProcessVertexResult::AllClipped => {
                let mut k: usize = 0;
                while k < self.edges.len()
                    invariant
                        self.vertices == classified.vertices,
                        self.faces == classified.faces,
                        self.edges@.len() == classified.edges@.len(),
                        k <= self.edges@.len(),
                        forall|j: int| k <= j < self.edges@.len() ==> self.edges@[j] == classified.edges@[j],
                        forall|j: int|
                            0 <= j < k ==> {
                                &&& !(#[trigger] self.edges@[j]).visible
                                &&& self.edges@[j].hd_vertex == classified.edges@[j].hd_vertex
                                &&& self.edges@[j].tl_vertex == classified.edges@[j].tl_vertex
                                &&& self.edges@[j].faces == classified.edges@[j].faces
                            },
                    decreases self.edges@.len() - k,
                {
                    self.edges[k].visible = false;
                    k += 1;
                }
                let ghost edges_hidden = *self;
                let mut f: usize = 0;
                while f < self.faces.len()
                    invariant
                        self.vertices == classified.vertices,
                        self.edges == edges_hidden.edges,
                        self.faces@.len() == classified.faces@.len(),
                        f <= self.faces@.len(),
                        forall|g: int| f <= g < self.faces@.len() ==> self.faces@[g] == classified.faces@[g],
                        forall|g: int|
                            0 <= g < f ==> {
                                &&& !(#[trigger] self.faces@[g]).visible
                                &&& self.faces@[g].edges == classified.faces@[g].edges
                            },
                    decreases self.faces@.len() - f,
                {
                    self.faces[f].visible = false;
                    f += 1;
                }
                proof {
                    assert(self.in_range()) by {
                        assert forall|e: int| 0 <= e < self.edges@.len() implies {
                            &&& (#[trigger] self.edges@[e]).hd_vertex < self.vertices@.len()
                            &&& self.edges@[e].tl_vertex < self.vertices@.len()
                            &&& list_below(self.edges@[e].faces@, self.faces@.len() as int)
                        } by {
                            assert(before.edges@[e].hd_vertex < before.vertices@.len());
                        }
                        assert forall|g: int| 0 <= g < self.faces@.len() implies list_below(
                            (#[trigger] self.faces@[g]).edges@,
                            self.edges@.len() as int,
                        ) by {
                            assert(list_below(before.faces@[g].edges@, before.edges@.len() as int));
                        }
                        assert forall|v: int| 0 <= v < self.vertices@.len() implies match (
                        #[trigger] self.vertices@[v]).origin {
                            VertexOrigin::Mesh(_) => true,
                            VertexOrigin::Cut(a, b) => a < v && b < v,
                        } by {
                            assert(self.vertices@[v].origin == before.vertices@[v].origin);
                        }
                    }
                    assert(self.faces_distinct()) by {
                        assert forall|g: int| 0 <= g < self.faces@.len() implies (
                        #[trigger] self.faces@[g]).edges@.no_duplicates() by {
                            assert(before.faces@[g].edges@.no_duplicates());
                        }
                    }
                }
                return result;
            },
            ProcessVertexResult::PartiallyClipped => {},
        }
        proof {
            assert(classified.in_range()) by {
                assert forall|v: int| 0 <= v < classified.vertices@.len() implies match (
                #[trigger] classified.vertices@[v]).origin {
                    VertexOrigin::Mesh(_) => true,
                    VertexOrigin::Cut(a, b) => a < v && b < v,
                } by {
                    assert(classified.vertices@[v].origin == before.vertices@[v].origin);
                }
            }
            assert(classified.edge_ends_classified()) by {
                assert forall|e: int|
                    0 <= e < classified.edges@.len() && (#[trigger] classified.edges@[e]).visible implies {
                    let head = classified.vertices@[classified.edges@[e].hd_vertex as int];
                    let tail = classified.vertices@[classified.edges@[e].tl_vertex as int];
                    &&& (head.visible || head.side == Side::Negative)
                    &&& (tail.visible || tail.side == Side::Negative)
                } by {
                    assert(before.edges@[e].visible);
                    assert(before.vertices@[before.edges@[e].hd_vertex as int].visible);
                    assert(before.vertices@[before.edges@[e].tl_vertex as int].visible);
                }
            }
        }
        self.process_edges();
        let ghost cut = *self;
        self.process_faces();
        proof {
            Self::lemma_parted(&before, &classified, &cut, self);
            assert(self.cut_closed(&before)) by {
                lemma_count_split_same(
                    before.edges@,
                    classified.vertices@,
                    self.vertices@,
                    before.edges@.len() as int,
                );
            }
            assert forall|i: int|
                before.vertices@.len() <= i < self.vertices@.len() implies #[trigger] cut_at(
                self.vertices@,
                i,
            ) by {
                assert(cut_at(cut.vertices@, i));
            }
        }
        result
    }

    /// The three steps of a clip that parts the mesh add up to what
    /// `parted` says.
    pub proof fn lemma_parted(before: &ClipMesh, classified: &ClipMesh, cut: &ClipMesh, after: &ClipMesh)
        requires
            before.well_formed(),
            classified.edges == before.edges,
            classified.faces == before.faces,
            classified.vertices@.len() == before.vertices@.len(),
            cut.well_formed(),
            cut.edges@.len() == classified.edges@.len(),
            cut.faces@.len() == classified.faces@.len(),
            cut.vertices@.len() >= classified.vertices@.len(),
            forall|i: int|
                0 <= i < classified.vertices@.len() ==> cut.vertices@[i] == classified.vertices@[i],
            forall|k: int|
                0 <= k < classified.edges@.len() ==> classified.edge_outcome(
                    k,
                    #[trigger] cut.edges@[k],
                    cut.vertices@,
                ),
            forall|f: int|
                0 <= f < classified.faces@.len() ==> classified.face_outcome(
                    f,
                    #[trigger] cut.faces@[f],
                    classified.edges@.len() as int,
                ),
            after.well_formed(),
            cut.same_vertices(after.vertices@),
            after.faces@.len() == cut.faces@.len() + 1,
            after.edges@.len() >= cut.edges@.len(),
            forall|k: int| 0 <= k < cut.edges@.len() ==> after.edges@[k] == cut.edges@[k],
            forall|k: int|
                cut.edges@.len() <= k < after.edges@.len() ==> (#[trigger] after.edges@[k]).visible,
            forall|f: int|
                0 <= f < cut.faces@.len() ==> cut.face_closed(
                    f,
                    #[trigger] after.faces@[f],
                    after.edges@,
                    cut.faces@.len() as int,
                ),
            after.faces@.last().visible,
            after.faces@.last().edges@ == Seq::new(
                (after.edges@.len() - cut.edges@.len()) as nat,
                |i: int| (cut.edges@.len() + i) as usize,
            ),
        ensures
            after.parted(before),
    {
        let old_edges = before.edges@.len() as int;
        assert forall|k: int| 0 <= k < old_edges implies Self::edge_culled(
            before.edges@[k],
            after.vertices@,
        ) == classified.culled(k) && Self::edge_split(before.edges@[k], after.vertices@)
            == classified.split(k) by {
            assert(before.edges@[k].hd_vertex < before.vertices@.len());
            assert(before.edges@[k].tl_vertex < before.vertices@.len());
        }
        assert forall|k: int| 0 <= k < old_edges implies #[trigger] after.edge_clipped(before, k) by {
            assert(classified.edge_outcome(k, cut.edges@[k], cut.vertices@));
            assert(after.edges@[k] == cut.edges@[k]);
            assert(before.edges@[k].hd_vertex < before.vertices@.len());
            assert(before.edges@[k].tl_vertex < before.vertices@.len());
        }
        let any_culled = exists|k: int|
            0 <= k < old_edges && Self::edge_culled(#[trigger] before.edges@[k], after.vertices@);
        assert(any_culled == classified.any_culled_below(old_edges)) by {
            if any_culled {
                let k = choose|k: int|
                    0 <= k < old_edges && Self::edge_culled(
                        #[trigger] before.edges@[k],
                        after.vertices@,
                    );
                assert(classified.culled(k));
            }
            if classified.any_culled_below(old_edges) {
                let k = choose|k: int| 0 <= k < old_edges && #[trigger] classified.culled(k);
                assert(Self::edge_culled(before.edges@[k], after.vertices@));
            }
        }
        assert forall|f: int| 0 <= f < before.faces@.len() implies #[trigger] after.face_clipped(
            before,
            f,
        ) by {
            let mid = cut.faces@[f];
            let list = after.faces@[f].edges@;
            assert(classified.face_outcome(f, mid, old_edges));
            assert(cut.face_closed(f, after.faces@[f], after.edges@, cut.faces@.len() as int));
            assert(list_below(mid.edges@, old_edges));
            assert(mid.edges@.len() > 0 ==> mid.edges@.last() < old_edges);
            let closed = Self::ends_new(list, old_edges);
            let kept = Self::old_part(list, old_edges);
            assert(kept == mid.edges@);
            lemma_filter_same(
                before.faces@[f].edges@,
                classified.keeps(old_edges),
                Self::survives(before.edges@, after.vertices@),
            );
            assert(after.endpoints(kept) =~= cut.endpoints(kept)) by {
                assert forall|i: int| 0 <= i < 2 * kept.len() implies after.endpoints(kept)[i]
                    == cut.endpoints(kept)[i] by {
                    assert(kept[i / 2] < old_edges);
                }
            }
            assert forall|e: usize| #[trigger]
                kept.contains(e) == (before.faces@[f].edges@.contains(e) && !Self::edge_culled(
                    before.edges@[e as int],
                    after.vertices@,
                )) by {
                assert(mid.edges@.contains(e) == classified.kept(
                    before.faces@[f].edges@,
                    e,
                    old_edges,
                ));
                if before.faces@[f].edges@.contains(e) {
                    let j = choose|j: int|
                        0 <= j < before.faces@[f].edges@.len() && before.faces@[f].edges@[j] == e;
                    assert(before.faces@[f].edges@[j] < old_edges);
                }
            }
            if closed {
                assert(list.no_duplicates()) by {
                    assert(mid.edges@.no_duplicates());
                    assert(list =~= mid.edges@.push(list.last()));
                }
            }
        }
    }
}

} // verus!
