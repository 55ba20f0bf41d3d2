//! Cutting the cells of a mesh into tetrahedra for the renderer, as far as
//! it is a matter of indices: which vertices of the mesh each tetrahedron
//! joins. The caller supplies coordinates and colours.

use vstd::prelude::*;
use std::collections::HashMap;
use crate::mesh::Mesh;
use crate::select::contains;

verus! {

broadcast use vstd::std_specs::hash::group_hash_axioms;

/// A corner of a tetrahedron: a vertex of the mesh, as part of one cell.
#[derive(Clone, Copy, PartialEq, Eq, Structural, Debug)]
pub struct Corner {
    pub cell: usize,
    pub vertex: usize,
}

/// Tetrahedra over the vertices of a mesh: four indices into `vertices`
/// for each tetrahedron.
#[derive(Debug)]
pub struct TetrahedronMesh {
    pub vertices: Vec<Corner>,
    pub indices: Vec<u32>,
}

/// The vertices around a face, in the order of its edges: of each edge its
/// head, unless the head is among the vertices before it, and then its tail.
pub open spec fn face_vertices(mesh: &Mesh, face_idx: int, upto: int) -> Seq<usize>
    decreases upto,
{
    if upto <= 0 {
        Seq::empty()
    } else {
        let before = face_vertices(mesh, face_idx, upto - 1);
        let edge = mesh.edges@[mesh.faces@[face_idx].edges@[upto - 1] as int];
        if before.contains(edge.hd_vertex) {
            before.push(edge.tl_vertex)
        } else {
            before.push(edge.hd_vertex)
        }
    }
}

/// The vertices around the face `face_idx` lie in the mesh.
pub proof fn lemma_face_vertices_in_range(mesh: &Mesh, face_idx: int, upto: int)
    requires
        mesh.in_range(),
        0 <= face_idx < mesh.faces@.len(),
        0 <= upto <= mesh.faces@[face_idx].edges@.len(),
    ensures
        face_vertices(mesh, face_idx, upto).len() == upto,
        forall|k: int|
            0 <= k < upto ==> (#[trigger] face_vertices(mesh, face_idx, upto)[k])
                < mesh.vertex_data@.len(),
    decreases upto,
{
    if upto > 0 {
        lemma_face_vertices_in_range(mesh, face_idx, upto - 1);
        let e = mesh.faces@[face_idx].edges@[upto - 1];
        assert(e < mesh.edges@.len());
        assert(mesh.edges@[e as int].hd_vertex < mesh.vertex_data@.len());
    }
}

/// The vertices around a face, in the order of its edges.
pub fn get_face_vertex_indices(mesh: &Mesh, face_idx: usize) -> (vertex_indices: Vec<usize>)
    requires
        mesh.in_range(),
        face_idx < mesh.faces@.len(),
    ensures
        vertex_indices@ == face_vertices(
            mesh,
            face_idx as int,
            mesh.faces@[face_idx as int].edges@.len() as int,
        ),
        vertex_indices@.len() == mesh.faces@[face_idx as int].edges@.len(),
        forall|k: int|
            0 <= k < vertex_indices@.len() ==> (#[trigger] vertex_indices@[k])
                < mesh.vertex_data@.len(),
{
    let mut vertex_indices: Vec<usize> = Vec::new();
    let total = mesh.faces[face_idx].edges.len();
    let mut k: usize = 0;
    while k < total
        invariant
            mesh.in_range(),
            face_idx < mesh.faces@.len(),
            total == mesh.faces@[face_idx as int].edges@.len(),
            k <= total,
            vertex_indices@ == face_vertices(mesh, face_idx as int, k as int),
        decreases total - k,
    {
        let edge_idx = mesh.faces[face_idx].edges.get(k);
        assert(mesh.faces@[face_idx as int].edges@[k as int] < mesh.edges@.len());
        let edge = &mesh.edges[edge_idx];
        if contains(&vertex_indices, edge.hd_vertex) {
            vertex_indices.push(edge.tl_vertex);
        } else {
            vertex_indices.push(edge.hd_vertex);
        }
        k += 1;
    }
    proof {
        lemma_face_vertices_in_range(mesh, face_idx as int, total as int);
    }
    vertex_indices
}

/// The vertices of the mesh that the tetrahedra of a fan join: from the
/// apex to the triangles that the first vertex of `around` forms with each
/// pair of neighbours among the next `triangles + 1` vertices.
pub open spec fn fan(apex: usize, around: Seq<usize>, triangles: int) -> Seq<usize>
    decreases triangles,
{
    if triangles <= 0 {
        Seq::empty()
    } else {
        fan(apex, around, triangles - 1) + seq![
            apex,
            around[0],
            around[triangles],
            around[triangles + 1],
        ]
    }
}

/// The vertices of the mesh that the tetrahedra of a cell join, for the
/// first `upto` faces of the cell: a fan from the apex over every face that
/// does not hold the apex.
pub open spec fn cell_fans(mesh: &Mesh, cell_idx: int, apex: usize, upto: int) -> Seq<usize>
    decreases upto,
{
    if upto <= 0 {
        Seq::empty()
    } else {
        let face_idx = mesh.cells@[cell_idx].faces@[upto - 1] as int;
        let around = face_vertices(mesh, face_idx, mesh.faces@[face_idx].edges@.len() as int);
        let before = cell_fans(mesh, cell_idx, apex, upto - 1);
        if around.contains(apex) {
            before
        } else {
            before + fan(apex, around, around.len() - 2)
        }
    }
}

/// The vertex from which the tetrahedra of a cell start: the vertex that
/// stands for the cell.
pub open spec fn apex_of(mesh: &Mesh, cell_idx: int) -> usize {
    mesh.edges@[mesh.faces@[mesh.cells@[cell_idx].faces@[0] as int].edges@[0] as int].hd_vertex
}

/// The vertices of the mesh that the tetrahedra of the first `upto` cells
/// join, cell after cell.
pub open spec fn mesh_fans(mesh: &Mesh, upto: int) -> Seq<usize>
    decreases upto,
{
    if upto <= 0 {
        Seq::empty()
    } else {
        mesh_fans(mesh, upto - 1) + cell_fans(
            mesh,
            upto - 1,
            apex_of(mesh, upto - 1),
            mesh.cells@[upto - 1].faces@.len() as int,
        )
    }
}

/// The vertices of the mesh that the indices of `tetrahedra` name.
pub open spec fn named_vertices(tetrahedra: &TetrahedronMesh) -> Seq<usize> {
    Seq::new(
        tetrahedra.indices@.len(),
        |k: int| tetrahedra.vertices@[tetrahedra.indices@[k] as int].vertex,
    )
}

/// Whether some index names the entry at `p`.
pub open spec fn is_named(indices: Seq<u32>, p: int) -> bool {
    exists|n: int| 0 <= n < indices.len() && #[trigger] indices[n] == p
}

/// Whether one of the first `upto` indices names the entry at `p`.
pub open spec fn named_before(indices: Seq<u32>, upto: int, p: int) -> bool {
    exists|n: int| 0 <= n < upto && n < indices.len() && #[trigger] indices[n] == p
}

/// Whether the entries are numbered as the indices first name them: every
/// index is preceded by indices that name all the entries before its own.
pub open spec fn numbered_as_named(indices: Seq<u32>) -> bool {
    forall|n: int, p: int|
        0 <= n < indices.len() && 0 <= p < indices[n] ==> #[trigger] named_before(indices, n, p)
}

/// One more index, which names an entry already named or the next one,
/// keeps the numbering.
pub proof fn lemma_named_after_push(before: Seq<u32>, index: u32, listed: int)
    requires
        forall|p: int| 0 <= p < listed ==> is_named(before, p),
        numbered_as_named(before),
        index <= listed,
    ensures
        numbered_as_named(before.push(index)),
        forall|p: int| 0 <= p < listed || p == index ==> is_named(before.push(index), p),
{
    let after = before.push(index);
    assert forall|n: int, p: int| 0 <= n < after.len() && 0 <= p < after[n] implies #[trigger] named_before(
        after,
        n,
        p,
    ) by {
        if n < before.len() {
            assert(named_before(before, n, p));
            let m = choose|m: int| 0 <= m < n && m < before.len() && #[trigger] before[m] == p;
            assert(after[m] == p);
        } else {
            assert(is_named(before, p));
            let m = choose|m: int| 0 <= m < before.len() && #[trigger] before[m] == p;
            assert(after[m] == p);
        }
    }
    assert forall|p: int| 0 <= p < listed || p == index implies is_named(after, p) by {
        if p == index {
            assert(after[before.len() as int] == p);
        } else {
            assert(is_named(before, p));
            let m = choose|m: int| 0 <= m < before.len() && #[trigger] before[m] == p;
            assert(after[m] == p);
        }
    }
}

/// The indices `added`, each moved up by `by`.
pub open spec fn moved_up(added: Seq<u32>, by: int) -> Seq<u32> {
    Seq::new(added.len(), |k: int| (added[k] + by) as u32)
}

/// Indices that are put behind others, moved up by the number of entries
/// that the others name, keep the numbering.
pub proof fn lemma_named_after_append(
    before: Seq<u32>,
    added: Seq<u32>,
    listed: int,
    listed_added: int,
)
    requires
        0 <= listed,
        forall|p: int| 0 <= p < listed ==> is_named(before, p),
        numbered_as_named(before),
        forall|p: int| 0 <= p < listed_added ==> is_named(added, p),
        numbered_as_named(added),
        forall|k: int| 0 <= k < added.len() ==> (#[trigger] added[k]) + listed <= u32::MAX,
    ensures
        numbered_as_named(before + moved_up(added, listed)),
        forall|p: int|
            0 <= p < listed + listed_added ==> is_named(before + moved_up(added, listed), p),
{
    let after = before + moved_up(added, listed);
    assert forall|p: int| 0 <= p < listed + listed_added implies is_named(after, p) by {
        if p < listed {
            assert(is_named(before, p));
            let m = choose|m: int| 0 <= m < before.len() && #[trigger] before[m] == p;
            assert(after[m] == p);
        } else {
            assert(is_named(added, p - listed));
            let m = choose|m: int| 0 <= m < added.len() && #[trigger] added[m] == p - listed;
            assert(after[before.len() + m] == p);
        }
    }
    assert forall|n: int, p: int| 0 <= n < after.len() && 0 <= p < after[n] implies #[trigger] named_before(
        after,
        n,
        p,
    ) by {
        if n < before.len() {
            assert(named_before(before, n, p));
            let m = choose|m: int| 0 <= m < n && m < before.len() && #[trigger] before[m] == p;
            assert(after[m] == p);
        } else if p < listed {
            assert(is_named(before, p));
            let m = choose|m: int| 0 <= m < before.len() && #[trigger] before[m] == p;
            assert(after[m] == p);
        } else {
            let j = n - before.len();
            assert(after[n] == (added[j] + listed) as u32);
            assert(named_before(added, j, p - listed));
            let m = choose|m: int|
                0 <= m < j && m < added.len() && #[trigger] added[m] == p - listed;
            assert(after[before.len() + m] == p);
        }
    }
}

impl TetrahedronMesh {
    /// Every index names a vertex, and the indices come in fours.
    pub open spec fn well_formed(&self) -> bool {
        &&& self.indices@.len() % 4 == 0
        &&& self.vertices@.len() <= u32::MAX
        &&& forall|k: int|
            0 <= k < self.indices@.len() ==> (#[trigger] self.indices@[k]) < self.vertices@.len()
    }

    /// Tetrahedra without vertices.
    pub fn empty() -> (tetrahedra: TetrahedronMesh)
        ensures
            tetrahedra.well_formed(),
            tetrahedra.vertices@.len() == 0,
            tetrahedra.indices@.len() == 0,
    {
        TetrahedronMesh { vertices: Vec::new(), indices: Vec::new() }
    }

    /// The tetrahedra of one cell: fans from one vertex of the cell, the
    /// apex, over every face of the cell that does not hold the apex. Every
    /// vertex of the mesh that a tetrahedron joins is listed once, in the
    /// place in which the indices first name it.
    pub fn tetrahedralize_cell(mesh: &Mesh, cell_idx: usize) -> (tetrahedra: TetrahedronMesh)
        requires
            mesh.in_range(),
            cell_idx < mesh.cells@.len(),
            mesh.vertex_data@.len() <= u32::MAX,
        ensures
            tetrahedra.well_formed(),
            forall|k: int|
                0 <= k < tetrahedra.vertices@.len() ==> (#[trigger] tetrahedra.vertices@[k]).cell
                    == cell_idx && tetrahedra.vertices@[k].vertex < mesh.vertex_data@.len(),
            forall|k: int, l: int|
                0 <= k < l < tetrahedra.vertices@.len() ==> tetrahedra.vertices@[k].vertex
                    != tetrahedra.vertices@[l].vertex,
            named_vertices(&tetrahedra) == cell_fans(
                mesh,
                cell_idx as int,
                mesh.edges@[mesh.faces@[mesh.cells@[cell_idx as int].faces@[0] as int].edges@[0] as int].hd_vertex,
                mesh.cells@[cell_idx as int].faces@.len() as int,
            ),
            forall|k: int|
                0 <= k < tetrahedra.vertices@.len() ==> is_named(tetrahedra.indices@, k),
            numbered_as_named(tetrahedra.indices@),
            tetrahedra.vertices@.len() <= mesh.vertex_data@.len(),
    {
        let mut builder = CellBuilder {
            cell: cell_idx,
            bound: mesh.vertex_data.len(),
            vertices: Vec::new(),
            indices: Vec::new(),
            vertex_map: HashMap::new(),
            named: Ghost(Seq::empty()),
        };
        assert(builder.named@ =~= named_vertices_of(builder.vertices@, builder.indices@));
        // the vertex from which all tetrahedra start
        let apex_idx = mesh.cell_representative_vertex(cell_idx);
        let face_total = mesh.cells[cell_idx].faces.len();
        let mut i: usize = 0;
        while i < face_total
            invariant
                mesh.in_range(),
                cell_idx < mesh.cells@.len(),
                builder.inv(),
                builder.cell == cell_idx,
                builder.bound == mesh.vertex_data@.len(),
                builder.bound <= u32::MAX,
                apex_idx < mesh.vertex_data@.len(),
                face_total == mesh.cells@[cell_idx as int].faces@.len(),
                i <= face_total,
                builder.named@ == cell_fans(mesh, cell_idx as int, apex_idx, i as int),
                builder.indices@.len() % 4 == 0,
            decreases face_total - i,
        {
            let face_idx = mesh.cells[cell_idx].faces.get(i);
            assert(mesh.cells@[cell_idx as int].faces@[i as int] < mesh.faces@.len());
            let vertex_indices = get_face_vertex_indices(mesh, face_idx);
            if !contains(&vertex_indices, apex_idx) {
                let ghost before = builder.named@;
                let count = vertex_indices.len();
                // the vertices go around the face, so every tetrahedron
                // of the fan lies next to the one before it
                let mut t: usize = 1;
                while t + 1 < count
                    invariant
                        builder.inv(),
                        builder.cell == cell_idx,
                        builder.bound == mesh.vertex_data@.len(),
                        builder.bound <= u32::MAX,
                        apex_idx < builder.bound,
                        count == vertex_indices@.len(),
                        count >= 2,
                        forall|k: int|
                            0 <= k < vertex_indices@.len() ==> (#[trigger] vertex_indices@[k])
                                < builder.bound,
                        1 <= t < count,
                        builder.named@ == before + fan(apex_idx, vertex_indices@, t - 1),
                        builder.indices@.len() % 4 == 0,
                    decreases count - t,
                {
                    builder.push_vertex(apex_idx);
                    builder.push_vertex(vertex_indices[0]);
                    builder.push_vertex(vertex_indices[t]);
                    builder.push_vertex(vertex_indices[t + 1]);
                    proof {
                        assert(builder.named@ =~= before + fan(apex_idx, vertex_indices@, t as int));
                    }
                    t += 1;
                }
            }
            i += 1;
        }
        proof {
            assert(named_vertices_of(builder.vertices@, builder.indices@) =~= builder.named@);
        }
        let tetrahedra = TetrahedronMesh { vertices: builder.vertices, indices: builder.indices };
        assert(named_vertices(&tetrahedra) =~= named_vertices_of(
            tetrahedra.vertices@,
            tetrahedra.indices@,
        ));
        tetrahedra
    }

    /// Adds the tetrahedra of `other` behind those of `self`. Returns
    /// `false`, and changes nothing, if the vertices of both together cannot
    /// be counted in thirty-two bits.
    pub fn append(&mut self, other: TetrahedronMesh) -> (done: bool)
        requires
            old(self).well_formed(),
            other.well_formed(),
        ensures
            final(self).well_formed(),
            done == (old(self).vertices@.len() + other.vertices@.len() <= u32::MAX),
            !done ==> final(self).vertices@ == old(self).vertices@ && final(self).indices@ == old(self).indices@,
            done ==> {
                &&& final(self).vertices@ == old(self).vertices@ + other.vertices@
                &&& final(self).indices@ == old(self).indices@ + moved_up(
                    other.indices@,
                    old(self).vertices@.len() as int,
                )
            },
    {
        let prev_len = self.vertices.len();
        if other.vertices.len() > (u32::MAX as usize) - prev_len {
            return false;
        }
        let offset: u32 = prev_len as u32;
        let mut v: usize = 0;
        while v < other.vertices.len()
            invariant
                v <= other.vertices@.len(),
                self.indices == old(self).indices,
                self.vertices@ == old(self).vertices@ + other.vertices@.take(v as int),
            decreases other.vertices@.len() - v,
        {
            self.vertices.push(other.vertices[v]);
            assert(other.vertices@.take(v + 1) =~= other.vertices@.take(v as int).push(
                other.vertices@[v as int],
            ));
            v += 1;
        }
        assert(other.vertices@.take(other.vertices@.len() as int) =~= other.vertices@);
        let mut k: usize = 0;
        while k < other.indices.len()
            invariant
                other.well_formed(),
                old(self).well_formed(),
                k <= other.indices@.len(),
                offset == old(self).vertices@.len(),
                old(self).vertices@.len() + other.vertices@.len() <= u32::MAX,
                self.vertices@ == old(self).vertices@ + other.vertices@,
                self.indices@ == old(self).indices@ + Seq::new(
                    k as nat,
                    |j: int| (other.indices@[j] + old(self).vertices@.len()) as u32,
                ),
            decreases other.indices@.len() - k,
        {
            assert(other.indices@[k as int] < other.vertices@.len());
            self.indices.push(other.indices[k] + offset);
            assert(self.indices@ =~= old(self).indices@ + Seq::new(
                (k + 1) as nat,
                |j: int| (other.indices@[j] + old(self).vertices@.len()) as u32,
            ));
            k += 1;
        }
        assert(self.indices@ =~= old(self).indices@ + moved_up(
            other.indices@,
            old(self).vertices@.len() as int,
        ));
        true
    }

    /// The tetrahedra of all cells of `mesh`, cell after cell, each cell
    /// with its own copies of the vertices, listed in the places in which
    /// the indices first name them, or `None` if the vertices cannot be
    /// counted in thirty-two bits.
    pub fn from_mesh(mesh: &Mesh) -> (tetrahedra: Option<TetrahedronMesh>)
        requires
            mesh.in_range(),
        ensures
            match tetrahedra {
                Some(t) => {
                    &&& t.well_formed()
                    &&& forall|k: int|
                        0 <= k < t.vertices@.len() ==> (#[trigger] t.vertices@[k]).cell
                            < mesh.cells@.len() && t.vertices@[k].vertex < mesh.vertex_data@.len()
                    &&& forall|k: int, l: int|
                        0 <= k < l < t.vertices@.len() ==> t.vertices@[k].cell
                            <= t.vertices@[l].cell && t.vertices@[k] != t.vertices@[l]
                    &&& named_vertices(&t) == mesh_fans(mesh, mesh.cells@.len() as int)
                    &&& forall|k: int| 0 <= k < t.vertices@.len() ==> is_named(t.indices@, k)
                    &&& numbered_as_named(t.indices@)
                },
                None => mesh.vertex_data@.len() > u32::MAX || mesh.cells@.len()
                    * mesh.vertex_data@.len() > u32::MAX,
            },
            mesh.vertex_data@.len() > u32::MAX ==> tetrahedra is None,
    {
        if mesh.vertex_data.len() > u32::MAX as usize {
            return None;
        }
        let mut result = TetrahedronMesh::empty();
        let mut cell_idx: usize = 0;
        while cell_idx < mesh.cells.len()
            invariant
                mesh.in_range(),
                mesh.vertex_data@.len() <= u32::MAX,
                cell_idx <= mesh.cells@.len(),
                result.well_formed(),
                forall|k: int|
                    0 <= k < result.vertices@.len() ==> (#[trigger] result.vertices@[k]).cell
                        < cell_idx && result.vertices@[k].vertex < mesh.vertex_data@.len(),
                forall|k: int, l: int|
                    0 <= k < l < result.vertices@.len() ==> result.vertices@[k].cell
                        <= result.vertices@[l].cell && result.vertices@[k] != result.vertices@[l],
                named_vertices(&result) == mesh_fans(mesh, cell_idx as int),
                forall|k: int| 0 <= k < result.vertices@.len() ==> is_named(result.indices@, k),
                numbered_as_named(result.indices@),
                result.vertices@.len() <= cell_idx * mesh.vertex_data@.len(),
            decreases mesh.cells@.len() - cell_idx,
        {
            let cell_mesh = Self::tetrahedralize_cell(mesh, cell_idx);
            let ghost added = cell_mesh.vertices@;
            let ghost before = result.vertices@;
            let ghost names_before = named_vertices(&result);
            let ghost names_added = named_vertices(&cell_mesh);
            let ghost indices_before = result.indices@;
            let ghost indices_added = cell_mesh.indices@;
            proof {
                let each = mesh.vertex_data@.len() as int;
                assert(cell_idx * each + each == (cell_idx + 1) * each) by (nonlinear_arith);
                assert((cell_idx + 1) * each <= mesh.cells@.len() * each) by (nonlinear_arith)
                    requires
                        cell_idx < mesh.cells@.len(),
                        0 <= each,
                ;
            }
            if !result.append(cell_mesh) {
                return None;
            }
            proof {
                lemma_named_after_append(
                    indices_before,
                    indices_added,
                    before.len() as int,
                    added.len() as int,
                );
                assert(named_vertices(&result) =~= names_before + names_added) by {
                    assert forall|k: int| 0 <= k < result.indices@.len() implies named_vertices(
                        &result,
                    )[k] == (names_before + names_added)[k] by {
                        if k < indices_before.len() {
                            assert(result.indices@[k] == indices_before[k]);
                            assert(result.vertices@[indices_before[k] as int]
                                == before[indices_before[k] as int]);
                        } else {
                            let j = k - indices_before.len();
                            assert(result.indices@[k] == (indices_added[j] + before.len()) as u32);
                            assert(indices_added[j] < added.len());
                            assert(result.vertices@[indices_added[j] + before.len()]
                                == added[indices_added[j] as int]);
                        }
                    }
                }
                assert forall|k: int, l: int| 0 <= k < l < result.vertices@.len() implies result.vertices@[k].cell
                    <= result.vertices@[l].cell && result.vertices@[k] != result.vertices@[l] by {
                    if l >= before.len() {
                        assert(result.vertices@[l] == added[l - before.len()]);
                        if k >= before.len() {
                            assert(result.vertices@[k] == added[k - before.len()]);
                        } else {
                            assert(result.vertices@[k] == before[k]);
                        }
                    } else {
                        assert(result.vertices@[k] == before[k]);
                        assert(result.vertices@[l] == before[l]);
                    }
                }
                assert forall|k: int| 0 <= k < result.vertices@.len() implies (
                #[trigger] result.vertices@[k]).cell < cell_idx + 1 && result.vertices@[k].vertex
                    < mesh.vertex_data@.len() by {
                    if k >= before.len() {
                        assert(result.vertices@[k] == added[k - before.len()]);
                    } else {
                        assert(result.vertices@[k] == before[k]);
                    }
                }
            }
            cell_idx += 1;
        }
        Some(result)
    }
}

/// The vertices of the mesh that `indices` name among `vertices`.
pub open spec fn named_vertices_of(vertices: Seq<Corner>, indices: Seq<u32>) -> Seq<usize> {
    Seq::new(indices.len(), |k: int| vertices[indices[k] as int].vertex)
}

/// Lists the corners of the tetrahedra of one cell, each vertex of the
/// mesh once.
pub struct CellBuilder {
    pub cell: usize,
    pub bound: usize,
    pub vertices: Vec<Corner>,
    pub indices: Vec<u32>,
    pub vertex_map: HashMap<usize, usize>,
    pub named: Ghost<Seq<usize>>,
}

impl CellBuilder {
    /// The map knows where each vertex of the mesh is listed, no vertex is
    /// listed twice, the indices name the vertices `named`, and the
    /// vertices are listed as the indices first name them.
    pub open spec fn inv(&self) -> bool {
        &&& self.bound <= u32::MAX
        &&& self.vertices@.len() <= self.bound
        &&& forall|v: usize| #[trigger]
            self.vertex_map@.contains_key(v) ==> self.vertex_map@[v] < self.vertices@.len()
                && self.vertices@[self.vertex_map@[v] as int].vertex == v
        &&& forall|k: int|
            0 <= k < self.vertices@.len() ==> {
                &&& (#[trigger] self.vertices@[k]).cell == self.cell
                &&& self.vertices@[k].vertex < self.bound
                &&& self.vertex_map@.contains_key(self.vertices@[k].vertex)
                &&& self.vertex_map@[self.vertices@[k].vertex] == k
            }
        &&& forall|k: int|
            0 <= k < self.indices@.len() ==> (#[trigger] self.indices@[k]) < self.vertices@.len()
        &&& self.named@ == named_vertices_of(self.vertices@, self.indices@)
        &&& forall|k: int| 0 <= k < self.vertices@.len() ==> is_named(self.indices@, k)
        &&& numbered_as_named(self.indices@)
    }

    /// Names the vertex `vertex_idx` of the mesh as the next corner.
    pub fn push_vertex(&mut self, vertex_idx: usize)
        requires
            old(self).inv(),
            vertex_idx < old(self).bound,
        ensures
            final(self).inv(),
            final(self).cell == old(self).cell,
            final(self).bound == old(self).bound,
            final(self).named@ == old(self).named@.push(vertex_idx),
            final(self).indices@.len() == old(self).indices@.len() + 1,
    {
        let colored_idx = match self.vertex_map.get(&vertex_idx) {
            Some(idx) => *idx,
            None => {
                let fresh = self.vertices.len();
                proof {
                    lemma_distinct_below(self.vertices@, self.bound, vertex_idx);
                }
                self.vertices.push(Corner { cell: self.cell, vertex: vertex_idx });
                self.vertex_map.insert(vertex_idx, fresh);
                fresh
            },
        };
        let ghost indices_before = self.indices@;
        self.indices.push(colored_idx as u32);
        proof {
            lemma_named_after_push(
                indices_before,
                colored_idx as u32,
                old(self).vertices@.len() as int,
            );
            self.named@ = self.named@.push(vertex_idx);
            assert(self.named@ =~= named_vertices_of(self.vertices@, self.indices@));
        }
    }
}

/// A list of different vertices below `bound` that lacks one of them is
/// shorter than `bound`.
pub proof fn lemma_distinct_below(vertices: Seq<Corner>, bound: usize, missing: usize)
    requires
        missing < bound,
        forall|k: int| 0 <= k < vertices.len() ==> (#[trigger] vertices[k]).vertex < bound,
        forall|k: int| 0 <= k < vertices.len() ==> (#[trigger] vertices[k]).vertex != missing,
        forall|k: int, l: int|
            0 <= k < l < vertices.len() ==> vertices[k].vertex != vertices[l].vertex,
    ensures
        vertices.len() < bound,
{
    let listed = vertices.map_values(|c: Corner| c.vertex as int);
    assert(listed.no_duplicates()) by {
        assert forall|k: int, l: int|
            0 <= k < listed.len() && 0 <= l < listed.len() && k != l implies listed[k]
            != listed[l] by {
            if k < l {
                assert(vertices[k].vertex != vertices[l].vertex);
            } else {
                assert(vertices[l].vertex != vertices[k].vertex);
            }
        }
    }
    listed.unique_seq_to_set();
    let all = vstd::set_lib::set_int_range(0, bound as int);
    let used = listed.to_set();
    vstd::set_lib::lemma_int_range(0, bound as int);
    assert(used.subset_of(all.remove(missing as int))) by {
        assert forall|x: int| used.contains(x) implies all.remove(missing as int).contains(x) by {
            let k = choose|k: int| 0 <= k < listed.len() && listed[k] == x;
            assert(vertices[k].vertex == x);
        }
    }
    vstd::set_lib::lemma_len_subset(used, all.remove(missing as int));
}


/// A point of a subdivided tetrahedron: the weights `i`, `j` and `k` of
/// its second, third and fourth corner, in parts of the frequency. The first
/// corner has the rest of the weight.
#[derive(Clone, Copy, PartialEq, Eq, Structural, Debug)]
pub struct LatticePoint {
    pub tetrahedron: usize,
    pub i: usize,
    pub j: usize,
    pub k: usize,
}

/// The tetrahedra of a subdivision: four indices into `points` for each.
#[derive(Debug)]
pub struct Subdivision {
    pub frequency: usize,
    pub points: Vec<LatticePoint>,
    pub indices: Vec<u32>,
}

impl Subdivision {
    /// The points that the indices name, index by index.
    pub open spec fn named_points(&self) -> Seq<LatticePoint> {
        Seq::new(self.indices@.len(), |n: int| self.points@[self.indices@[n] as int])
    }

    /// Every index names a point, the indices come in fours, every point
    /// lies in the tetrahedron it belongs to, and no point of a tetrahedron
    /// is listed twice.
    pub open spec fn well_formed(&self, tetrahedra: nat) -> bool {
        &&& self.indices@.len() % 4 == 0
        &&& forall|n: int|
            0 <= n < self.indices@.len() ==> (#[trigger] self.indices@[n]) < self.points@.len()
        &&& forall|p: int|
            0 <= p < self.points@.len() ==> {
                &&& (#[trigger] self.points@[p]).tetrahedron < tetrahedra
                &&& self.points@[p].i + self.points@[p].j + self.points@[p].k <= self.frequency
            }
        &&& forall|p: int, q: int|
            0 <= p < q < self.points@.len() ==> self.points@[p] != self.points@[q]
                && self.points@[p].tetrahedron <= self.points@[q].tetrahedron
    }
}

/// The corners of the small tetrahedra at the point `(i, j, n - i - j)`
/// of layer `n`: the tetrahedron that stands on the point, then, where
/// they fit, the four tetrahedra of the octahedron beside it and the
/// tetrahedron that hangs above it.
pub open spec fn lattice_cell(frequency: int, n: int, i: int, j: int) -> Seq<
    (usize, usize, usize),
> {
    let k = n - i - j;
    let x = (i as usize, j as usize, k as usize);
    let xi = ((i + 1) as usize, j as usize, k as usize);
    let xj = (i as usize, (j + 1) as usize, k as usize);
    let xk = (i as usize, j as usize, (k + 1) as usize);
    let xij = ((i + 1) as usize, (j + 1) as usize, k as usize);
    let xik = ((i + 1) as usize, j as usize, (k + 1) as usize);
    let xjk = (i as usize, (j + 1) as usize, (k + 1) as usize);
    let xijk = ((i + 1) as usize, (j + 1) as usize, (k + 1) as usize);
    seq![x, xi, xj, xk] + (if frequency - n > 1 {
        seq![xi, xj, xk, xik, xi, xj, xij, xik, xj, xk, xik, xjk, xj, xij, xik, xjk]
    } else {
        Seq::empty()
    }) + (if frequency - n > 2 {
        seq![xij, xik, xjk, xijk]
    } else {
        Seq::empty()
    })
}

/// The corners at the points `(i, 0, ..)`, ..., `(i, upto - 1, ..)` of
/// layer `n`.
pub open spec fn lattice_row(frequency: int, n: int, i: int, upto: int) -> Seq<
    (usize, usize, usize),
>
    decreases upto,
{
    if upto <= 0 {
        Seq::empty()
    } else {
        lattice_row(frequency, n, i, upto - 1) + lattice_cell(frequency, n, i, upto - 1)
    }
}

/// The corners at the rows `0`, ..., `upto - 1` of layer `n`. Row `i` of
/// layer `n` has `n - i + 1` points.
pub open spec fn lattice_layer(frequency: int, n: int, upto: int) -> Seq<(usize, usize, usize)>
    decreases upto,
{
    if upto <= 0 {
        Seq::empty()
    } else {
        lattice_layer(frequency, n, upto - 1) + lattice_row(
            frequency,
            n,
            upto - 1,
            n - (upto - 1) + 1,
        )
    }
}

/// The corners at the layers `0`, ..., `upto - 1`. Layer `n` has `n + 1`
/// rows.
pub open spec fn lattice_layers(frequency: int, upto: int) -> Seq<(usize, usize, usize)>
    decreases upto,
{
    if upto <= 0 {
        Seq::empty()
    } else {
        lattice_layers(frequency, upto - 1) + lattice_layer(frequency, upto - 1, upto)
    }
}

/// The corners of the small tetrahedra of a tetrahedron that is cut
/// `frequency` times along every edge, four for each tetrahedron.
pub open spec fn lattice(frequency: int) -> Seq<(usize, usize, usize)> {
    lattice_layers(frequency, frequency)
}

/// How many small tetrahedra stand at one point of layer `n`.
pub open spec fn cell_weight(frequency: int, n: int) -> int {
    1 + (if frequency - n > 1 {
        4int
    } else {
        0int
    }) + (if frequency - n > 2 {
        1int
    } else {
        0int
    })
}

/// A row has four corners for every small tetrahedron at each of its
/// points.
proof fn lemma_row_size(frequency: int, n: int, i: int, upto: int)
    requires
        0 <= upto,
    ensures
        lattice_row(frequency, n, i, upto).len() == 4 * cell_weight(frequency, n) * upto,
    decreases upto,
{
    if upto > 0 {
        lemma_row_size(frequency, n, i, upto - 1);
        let w = cell_weight(frequency, n);
        assert(lattice_cell(frequency, n, i, upto - 1).len() == 4 * w);
        assert(4 * w * (upto - 1) + 4 * w == 4 * w * upto) by (nonlinear_arith);
    } else {
        assert(4 * cell_weight(frequency, n) * 0 == 0) by (nonlinear_arith);
    }
}

/// The rows of a layer grow shorter by one point each.
proof fn lemma_layer_size(frequency: int, n: int, upto: int)
    requires
        0 <= upto <= n + 1,
    ensures
        lattice_layer(frequency, n, upto).len() == 2 * cell_weight(frequency, n) * (upto * (2 * n
            + 3 - upto)),
    decreases upto,
{
    if upto > 0 {
        lemma_layer_size(frequency, n, upto - 1);
        lemma_row_size(frequency, n, upto - 1, n - (upto - 1) + 1);
        let w = cell_weight(frequency, n);
        assert(2 * w * ((upto - 1) * (2 * n + 3 - (upto - 1))) + 4 * w * (n - (upto - 1) + 1) == 2
            * w * (upto * (2 * n + 3 - upto))) by (nonlinear_arith);
    } else {
        assert(2 * cell_weight(frequency, n) * (0 * (2 * n + 3 - 0)) == 0) by (nonlinear_arith);
    }
}

/// How many corners the layers below `upto` have.
pub open spec fn layers_size(frequency: int, upto: int) -> int {
    if upto <= frequency - 2 {
        4 * (upto * (upto + 1) * (upto + 2))
    } else if upto == frequency - 1 {
        4 * ((frequency - 2) * (frequency - 1) * frequency) + 10 * ((frequency - 1) * frequency)
    } else {
        4 * (frequency * frequency * frequency)
    }
}

/// The layers below `upto` have as many corners as `layers_size` says.
proof fn lemma_layers_size(frequency: int, upto: int)
    requires
        0 <= upto <= frequency,
    ensures
        lattice_layers(frequency, upto).len() == layers_size(frequency, upto),
    decreases upto,
{
    if upto > 0 {
        let n = upto - 1;
        let f = frequency;
        lemma_layers_size(frequency, n);
        lemma_layer_size(frequency, n, upto);
        let w = cell_weight(frequency, n);
        assert(lattice_layer(frequency, n, upto).len() == 2 * w * ((n + 1) * (n + 2))) by {
            assert(upto * (2 * n + 3 - upto) == (n + 1) * (n + 2)) by (nonlinear_arith)
                requires
                    upto == n + 1,
            ;
        }
        if upto <= f - 2 {
            assert(4 * (n * (n + 1) * (n + 2)) + 2 * 6 * ((n + 1) * (n + 2)) == 4 * ((n + 1) * (n
                + 2) * (n + 3))) by (nonlinear_arith);
        } else if upto == f - 1 {
            assert(4 * (n * (n + 1) * (n + 2)) + 2 * 5 * ((n + 1) * (n + 2)) == 4 * ((f - 2) * (f
                - 1) * f) + 10 * ((f - 1) * f)) by (nonlinear_arith)
                requires
                    n == f - 2,
            ;
        } else {
            assert(4 * ((f - 2) * (f - 1) * f) + 10 * ((f - 1) * f) + 2 * 1 * ((n + 1) * (n + 2))
                == 4 * (f * f * f)) by (nonlinear_arith)
                requires
                    n == f - 1,
            ;
        }
    } else {
        assert(4 * (0 * (0 + 1) * (0 + 2)) == 0) by (nonlinear_arith);
        if frequency == 1 {
            assert(4 * ((1 - 2) * (1 - 1) * 1) + 10 * ((1 - 1) * 1) == 0) by (nonlinear_arith);
        }
        if frequency == 0 {
            assert(4 * (0 * 0 * 0) == 0) by (nonlinear_arith);
        }
    }
}

/// A tetrahedron that is cut `frequency` times along every edge falls into
/// `frequency` cubed small tetrahedra.
pub proof fn lemma_lattice_size(frequency: int)
    requires
        0 <= frequency,
    ensures
        lattice(frequency).len() == 4 * (frequency * frequency * frequency),
{
    lemma_layers_size(frequency, frequency);
}

/// Adds the corners of the small tetrahedra at the point `(i, j, n - i - j)`
/// of layer `n`.
fn push_cell(corners: &mut Vec<(usize, usize, usize)>, frequency: usize, n: usize, i: usize, j: usize)
    requires
        n < frequency,
        i + j <= n,
        forall|m: int|
            0 <= m < old(corners)@.len() ==> (#[trigger] old(corners)@[m]).0 + old(corners)@[m].1
                + old(corners)@[m].2 <= frequency,
    ensures
        final(corners)@ == old(corners)@ + lattice_cell(
            frequency as int,
            n as int,
            i as int,
            j as int,
        ),
        forall|m: int|
            0 <= m < final(corners)@.len() ==> (#[trigger] final(corners)@[m]).0
                + final(corners)@[m].1 + final(corners)@[m].2 <= frequency,
{
    let k = n - i - j;
    let ghost before = corners@;
    let ghost stands = seq![(i, j, k), ((i + 1) as usize, j, k), (i, (j + 1) as usize, k), (i, j, (k + 1) as usize)];
    // the tetrahedron that stands on this point
    corners.push((i, j, k));
    corners.push((i + 1, j, k));
    corners.push((i, j + 1, k));
    corners.push((i, j, k + 1));
    assert(corners@ =~= before + stands);
    if frequency - n > 1 {
        // the octahedron beside it
        corners.push((i + 1, j, k));
        corners.push((i, j + 1, k));
        corners.push((i, j, k + 1));
        corners.push((i + 1, j, k + 1));

        corners.push((i + 1, j, k));
        corners.push((i, j + 1, k));
        corners.push((i + 1, j + 1, k));
        corners.push((i + 1, j, k + 1));

        corners.push((i, j + 1, k));
        corners.push((i, j, k + 1));
        corners.push((i + 1, j, k + 1));
        corners.push((i, j + 1, k + 1));

        corners.push((i, j + 1, k));
        corners.push((i + 1, j + 1, k));
        corners.push((i + 1, j, k + 1));
        corners.push((i, j + 1, k + 1));
    }
    if frequency - n > 2 {
        // the tetrahedron that hangs above it
        corners.push((i + 1, j + 1, k));
        corners.push((i + 1, j, k + 1));
        corners.push((i, j + 1, k + 1));
        corners.push((i + 1, j + 1, k + 1));
    }
    proof {
        assert(corners@ =~= before + lattice_cell(frequency as int, n as int, i as int, j as int));
    }
}

/// The small tetrahedra of a tetrahedron that is cut `frequency` times
/// along every edge, by the weights of their corners, four corners each:
/// layer by layer from the first corner, at every point of a layer the
/// tetrahedron that stands on it, and, where they fit, the four tetrahedra
/// of the octahedron beside it and the tetrahedron that hangs above it.
pub fn lattice_tetrahedra(frequency: usize) -> (corners: Vec<(usize, usize, usize)>)
    ensures
        corners@ == lattice(frequency as int),
        corners@.len() == 4 * (frequency * frequency * frequency),
        forall|n: int|
            0 <= n < corners@.len() ==> (#[trigger] corners@[n]).0 + corners@[n].1 + corners@[n].2
                <= frequency,
{
    let mut corners: Vec<(usize, usize, usize)> = Vec::new();
    let mut n: usize = 0;
    while n < frequency
        invariant
            n <= frequency,
            corners@ == lattice_layers(frequency as int, n as int),
            forall|m: int|
                0 <= m < corners@.len() ==> (#[trigger] corners@[m]).0 + corners@[m].1
                    + corners@[m].2 <= frequency,
        decreases frequency - n,
    {
        // all the points of this layer
        let mut i: usize = 0;
        while i <= n
            invariant
                n < frequency,
                i <= n + 1,
                corners@ == lattice_layers(frequency as int, n as int) + lattice_layer(
                    frequency as int,
                    n as int,
                    i as int,
                ),
                forall|m: int|
                    0 <= m < corners@.len() ==> (#[trigger] corners@[m]).0 + corners@[m].1
                        + corners@[m].2 <= frequency,
            decreases n + 1 - i,
        {
            let mut j: usize = 0;
            let ghost below = corners@;
            while j <= n - i
                invariant
                    n < frequency,
                    i <= n,
                    j <= n - i + 1,
                    corners@ == below + lattice_row(frequency as int, n as int, i as int, j as int),
                    forall|m: int|
                        0 <= m < corners@.len() ==> (#[trigger] corners@[m]).0 + corners@[m].1
                            + corners@[m].2 <= frequency,
                decreases n - i + 1 - j,
            {
                push_cell(&mut corners, frequency, n, i, j);
                proof {
                    assert(corners@ =~= below + lattice_row(
                        frequency as int,
                        n as int,
                        i as int,
                        j + 1,
                    ));
                }
                j += 1;
            }
            proof {
                assert(corners@ =~= lattice_layers(frequency as int, n as int) + lattice_layer(
                    frequency as int,
                    n as int,
                    i + 1,
                ));
            }
            i += 1;
        }
        n += 1;
    }
    proof {
        lemma_lattice_size(frequency as int);
    }
    corners
}

/// The corners of the small tetrahedra of tetrahedron `t`, as points.
pub open spec fn lattice_points_of(frequency: int, t: int) -> Seq<LatticePoint> {
    Seq::new(
        lattice(frequency).len(),
        |c: int|
            LatticePoint {
                tetrahedron: t as usize,
                i: lattice(frequency)[c].0,
                j: lattice(frequency)[c].1,
                k: lattice(frequency)[c].2,
            },
    )
}

/// The corners of the small tetrahedra of the first `tetrahedra`
/// tetrahedra, one tetrahedron after the other.
pub open spec fn lattice_points(frequency: int, tetrahedra: int) -> Seq<LatticePoint>
    decreases tetrahedra,
{
    if tetrahedra <= 0 {
        Seq::empty()
    } else {
        lattice_points(frequency, tetrahedra - 1) + lattice_points_of(frequency, tetrahedra - 1)
    }
}

/// Every tetrahedron gives as many corners as the lattice has.
pub proof fn lemma_lattice_points_size(frequency: int, tetrahedra: int)
    requires
        0 <= tetrahedra,
    ensures
        lattice_points(frequency, tetrahedra).len() == tetrahedra * lattice(frequency).len(),
    decreases tetrahedra,
{
    let size = lattice(frequency).len() as int;
    if tetrahedra > 0 {
        lemma_lattice_points_size(frequency, tetrahedra - 1);
        assert((tetrahedra - 1) * size + size == tetrahedra * size) by (nonlinear_arith);
    } else {
        assert(0 * size == 0) by (nonlinear_arith);
    }
}

impl TetrahedronMesh {
    /// Cuts every tetrahedron `frequency` times along every edge. The
    /// indices name, tetrahedron by tetrahedron, the corners that
    /// `lattice` lists; every point is listed once, in the place in which
    /// the indices first name it. Returns `None` if an index does not fit
    /// in thirty-two bits, which cannot happen while there are no more
    /// corners than that.
    pub fn subdivide(&self, frequency: usize) -> (cut: Option<Subdivision>)
        ensures
            match cut {
                Some(s) => {
                    &&& s.frequency == frequency
                    &&& s.well_formed(self.indices@.len() / 4)
                    &&& s.named_points() == lattice_points(
                        frequency as int,
                        (self.indices@.len() / 4) as int,
                    )
                    &&& forall|p: int| 0 <= p < s.points@.len() ==> is_named(s.indices@, p)
                    &&& numbered_as_named(s.indices@)
                },
                None => (self.indices@.len() / 4) * lattice(frequency as int).len() > u32::MAX,
            },
    {
        let corners = lattice_tetrahedra(frequency);
        let tetrahedra = self.indices.len() / 4;
        let mut points: Vec<LatticePoint> = Vec::new();
        let mut indices: Vec<u32> = Vec::new();
        let mut t: usize = 0;
        let ghost size = corners@.len() as int;
        proof {
            assert(size % 4 == 0) by (nonlinear_arith)
                requires
                    size == 4 * (frequency * frequency * frequency),
            ;
            assert(indices@.len() % 4 == 0);
        }
        while t < tetrahedra
            invariant
                t <= tetrahedra,
                tetrahedra == self.indices@.len() / 4,
                corners@ == lattice(frequency as int),
                size == corners@.len(),
                size % 4 == 0,
                forall|n: int|
                    0 <= n < corners@.len() ==> (#[trigger] corners@[n]).0 + corners@[n].1
                        + corners@[n].2 <= frequency,
                indices@.len() % 4 == 0,
                indices@.len() == lattice_points(frequency as int, t as int).len(),
                points@.len() <= indices@.len(),
                forall|n: int| 0 <= n < indices@.len() ==> (#[trigger] indices@[n]) < points@.len(),
                forall|n: int|
                    0 <= n < indices@.len() ==> points@[(#[trigger] indices@[n]) as int]
                        == lattice_points(frequency as int, t as int)[n],
                forall|p: int| 0 <= p < points@.len() ==> is_named(indices@, p),
                numbered_as_named(indices@),
                forall|p: int|
                    0 <= p < points@.len() ==> {
                        &&& (#[trigger] points@[p]).tetrahedron < t
                        &&& points@[p].i + points@[p].j + points@[p].k <= frequency
                    },
                forall|p: int, q: int|
                    0 <= p < q < points@.len() ==> points@[p] != points@[q] && points@[p].tetrahedron
                        <= points@[q].tetrahedron,
            decreases tetrahedra - t,
        {
            let base = points.len();
            let ghost done = lattice_points(frequency as int, t as int);
            let ghost target = done + lattice_points_of(frequency as int, t as int);
            let mut c: usize = 0;
            proof {
                lemma_lattice_points_size(frequency as int, t as int);
                lemma_lattice_points_size(frequency as int, tetrahedra as int);
                assert((t + 1) * size <= tetrahedra * size) by (nonlinear_arith)
                    requires
                        t < tetrahedra,
                        0 <= size,
                ;
                assert((t + 1) * size == t * size + size) by (nonlinear_arith);
            }
            while c < corners.len()
                invariant
                    t < tetrahedra,
                    tetrahedra == self.indices@.len() / 4,
                    c <= corners@.len(),
                    base <= points@.len(),
                    corners@ == lattice(frequency as int),
                    size == corners@.len(),
                    done == lattice_points(frequency as int, t as int),
                    target == done + lattice_points_of(frequency as int, t as int),
                    done.len() == t * size,
                    t * size + size <= tetrahedra * size,
                    forall|n: int|
                        0 <= n < corners@.len() ==> (#[trigger] corners@[n]).0 + corners@[n].1
                            + corners@[n].2 <= frequency,
                    indices@.len() == done.len() + c,
                    points@.len() <= indices@.len(),
                    forall|n: int|
                        0 <= n < indices@.len() ==> (#[trigger] indices@[n]) < points@.len(),
                    forall|n: int|
                        0 <= n < indices@.len() ==> points@[(#[trigger] indices@[n]) as int]
                            == target[n],
                    forall|p: int| 0 <= p < points@.len() ==> is_named(indices@, p),
                    numbered_as_named(indices@),
                    forall|p: int|
                        0 <= p < base ==> (#[trigger] points@[p]).tetrahedron < t,
                    forall|p: int|
                        base <= p < points@.len() ==> (#[trigger] points@[p]).tetrahedron == t,
                    forall|p: int|
                        0 <= p < points@.len() ==> (#[trigger] points@[p]).i + points@[p].j
                            + points@[p].k <= frequency,
                    forall|p: int, q: int|
                        0 <= p < q < points@.len() ==> points@[p] != points@[q]
                            && points@[p].tetrahedron <= points@[q].tetrahedron,
                decreases corners@.len() - c,
            {
                let (i, j, k) = corners[c];
                let point = LatticePoint { tetrahedron: t, i, j, k };
                let ghost points_before = points@;
                let ghost indices_before = indices@;
                let index = match position_from(&points, base, point) {
                    Some(at) => at,
                    None => {
                        let fresh = points.len();
                        points.push(point);
                        fresh
                    },
                };
                if index > u32::MAX as usize {
                    proof {
                        assert(index <= indices_before.len());
                        assert(indices_before.len() < tetrahedra * size);
                    }
                    return None;
                }
                indices.push(index as u32);
                proof {
                    assert(target[done.len() + c] == point);
                    lemma_named_after_push(
                        indices_before,
                        index as u32,
                        points_before.len() as int,
                    );
                }
                c += 1;
            }
            proof {
                assert(target == lattice_points(frequency as int, t + 1));
                assert((done.len() + size) % 4 == 0) by {
                    assert(indices@.len() == done.len() + size);
                    assert(done.len() % 4 == 0);
                }
            }
            t += 1;
        }
        let cut = Subdivision { frequency, points, indices };
        proof {
            assert(cut.named_points() =~= lattice_points(frequency as int, tetrahedra as int));
        }
        Some(cut)
    }
}

/// The position of `point` among the points from `base` on.
pub fn position_from(points: &Vec<LatticePoint>, base: usize, point: LatticePoint) -> (at: Option<
    usize,
>)
    requires
        base <= points@.len(),
    ensures
        match at {
            Some(p) => base <= p < points@.len() && points@[p as int] == point,
            None => forall|p: int| base <= p < points@.len() ==> points@[p] != point,
        },
{
    let mut p: usize = base;
    while p < points.len()
        invariant
            base <= p <= points@.len(),
            forall|q: int| base <= q < p ==> points@[q] != point,
        decreases points@.len() - p,
    {
        let candidate = points[p];
        if candidate.tetrahedron == point.tetrahedron && candidate.i == point.i && candidate.j
            == point.j && candidate.k == point.k {
            return Some(p);
        }
        p += 1;
    }
    None
}

} // verus!
