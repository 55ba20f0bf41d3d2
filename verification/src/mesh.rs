//! The incidence structure of a convex four-dimensional polytope: which
//! vertices bound which edges, which edges bound which faces, and which
//! faces bound which cells.

use vstd::prelude::*;
use crate::bfs::{
    bfs_tree, is_bfs_tree, paths_along, tree_edge, BfsTree,
};
use crate::coxeter::{coset_table, EnumerationError};
use crate::table::{
    in_range, letters_below, no_empty_word, presentation_fits, rectangular, rows_of, words_of,
};
use crate::index_list::IndexList;
use crate::polytope::{
    all_enumerated, ascending, columns, corner_at, element_tables, has_zero, is_element_table,
    is_orbit, no_closed_polytope, no_polytope,
    cell_told, corners_told, face_being_told, face_told, lemma_cell_faces_distinct,
    lemma_face_done, lemma_face_other, lemma_face_step, lemma_laid_out, lemma_told_kept,
    lemma_told_step, lists_cell, occurs_before, told_more, touches,
};
use crate::select::contains;

verus! {

/// Stands in a face for a neighbouring cell that does not exist.
pub const NO_CELL: usize = usize::MAX;

/// Why a symbol has given no mesh.
#[derive(Clone, Copy, PartialEq, Eq, Structural, Debug)]
pub enum MeshError {
    /// The enumeration of the vertices, edges, faces or cells gave no
    /// table.
    Enumeration(EnumerationError),
    /// The tables give no mesh, or none that is well formed and closed.
    Malformed,
    /// An entry of the symbol is zero: two mirrors would have a relator
    /// without letters.
    EmptyRelator,
}

/// What a vertex knows of the mesh: the cells it lies on.
#[derive(Clone, Debug)]
pub struct VertexData {
    pub cells: IndexList,
}

/// An edge: its two vertices and the faces around it.
#[derive(Clone, Debug)]
pub struct Edge {
    pub hd_vertex: usize,
    pub tl_vertex: usize,
    pub faces: IndexList,
}

/// A face: the two cells it separates and the edges around it, in order.
#[derive(Clone, Debug)]
pub struct Face {
    pub hd_cell: usize,
    pub tl_cell: usize,
    pub edges: IndexList,
}

/// A cell: the faces that bound it, and the mirrors that carry the first
/// cell of the mesh to this one, in the order in which they are applied.
#[derive(Clone, Debug)]
pub struct Cell {
    pub faces: IndexList,
    pub mirrors: Vec<usize>,
}

/// A polytope mesh without its coordinates. A vertex is given by the
/// mirrors that carry the first vertex to it.
#[derive(Clone, Debug)]
pub struct Mesh {
    pub vertex_mirrors: Vec<Vec<usize>>,
    pub vertex_data: Vec<VertexData>,
    pub edges: Vec<Edge>,
    pub faces: Vec<Face>,
    pub cells: Vec<Cell>,
}

/// Every index of `s` is below `bound`.
pub open spec fn list_below(s: Seq<usize>, bound: int) -> bool {
    forall|i: int| 0 <= i < s.len() ==> (#[trigger] s[i]) < bound
}

/// `c` names one of `count` cells, or no cell.
pub open spec fn cell_ref(c: usize, count: int) -> bool {
    c < count || c == NO_CELL
}

impl Mesh {
    /// Every edge names two vertices and faces of the mesh.
    pub open spec fn edges_in_range(&self) -> bool {
        forall|e: int|
            0 <= e < self.edges@.len() ==> {
                &&& (#[trigger] self.edges@[e]).hd_vertex < self.vertex_data@.len()
                &&& self.edges@[e].tl_vertex < self.vertex_data@.len()
                &&& list_below(self.edges@[e].faces@, self.faces@.len() as int)
            }
    }

    /// Every face has at least two edges, all of the mesh, and names cells
    /// of the mesh where it names any.
    pub open spec fn faces_in_range(&self) -> bool {
        forall|f: int|
            0 <= f < self.faces@.len() ==> {
                &&& (#[trigger] self.faces@[f]).edges@.len() >= 2
                &&& list_below(self.faces@[f].edges@, self.edges@.len() as int)
                &&& cell_ref(self.faces@[f].hd_cell, self.cells@.len() as int)
                &&& cell_ref(self.faces@[f].tl_cell, self.cells@.len() as int)
            }
    }

    /// Every cell has at least one face, and all its faces are of the mesh.
    pub open spec fn cells_in_range(&self) -> bool {
        forall|c: int|
            0 <= c < self.cells@.len() ==> {
                &&& (#[trigger] self.cells@[c]).faces@.len() >= 1
                &&& list_below(self.cells@[c].faces@, self.faces@.len() as int)
            }
    }

    /// Every vertex has its mirrors, and names cells of the mesh.
    pub open spec fn vertices_in_range(&self) -> bool {
        &&& self.vertex_mirrors@.len() == self.vertex_data@.len()
        &&& forall|v: int|
            0 <= v < self.vertex_data@.len() ==> list_below(
                (#[trigger] self.vertex_data@[v]).cells@,
                self.cells@.len() as int,
            )
    }

    /// Every index in the mesh names something in the mesh.
    pub open spec fn in_range(&self) -> bool {
        &&& self.edges_in_range()
        &&& self.faces_in_range()
        &&& self.cells_in_range()
        &&& self.vertices_in_range()
    }

    /// An edge lists a face exactly when the face lists the edge.
    pub open spec fn edge_face_incidence(&self) -> bool {
        &&& forall|e: int, i: int|
            0 <= e < self.edges@.len() && 0 <= i < self.edges@[e].faces@.len()
                ==> self.faces@[(#[trigger] self.edges@[e].faces@[i]) as int].edges@.contains(
                e as usize,
            )
        &&& forall|f: int, i: int|
            0 <= f < self.faces@.len() && 0 <= i < self.faces@[f].edges@.len()
                ==> self.edges@[(#[trigger] self.faces@[f].edges@[i]) as int].faces@.contains(
                f as usize,
            )
    }

    /// A cell lists a face exactly when the face names the cell as one of
    /// the two it separates.
    pub open spec fn face_cell_incidence(&self) -> bool {
        &&& forall|c: int, i: int|
            0 <= c < self.cells@.len() && 0 <= i < self.cells@[c].faces@.len() ==> {
                let f = (#[trigger] self.cells@[c].faces@[i]) as int;
                self.faces@[f].hd_cell == c || self.faces@[f].tl_cell == c
            }
        &&& forall|f: int|
            0 <= f < self.faces@.len() ==> {
                &&& (#[trigger] self.faces@[f]).hd_cell != NO_CELL
                    ==> self.cells@[self.faces@[f].hd_cell as int].faces@.contains(f as usize)
                &&& self.faces@[f].tl_cell != NO_CELL
                    ==> self.cells@[self.faces@[f].tl_cell as int].faces@.contains(f as usize)
            }
    }

    /// The vertices of every edge of every face of a cell list that cell.
    pub open spec fn vertex_cell_incidence(&self) -> bool {
        forall|c: int, i: int, j: int|
            0 <= c < self.cells@.len() && 0 <= i < self.cells@[c].faces@.len() && 0 <= j
                < self.faces@[self.cells@[c].faces@[i] as int].edges@.len() ==> {
                let e = (#[trigger] self.faces@[self.cells@[c].faces@[i] as int].edges@[j]) as int;
                &&& self.vertex_data@[self.edges@[e].hd_vertex as int].cells@.contains(c as usize)
                &&& self.vertex_data@[self.edges@[e].tl_vertex as int].cells@.contains(c as usize)
            }
    }

    /// No face lists an edge twice.
    pub open spec fn face_edges_distinct(&self) -> bool {
        forall|f: int| 0 <= f < self.faces@.len() ==> (#[trigger] self.faces@[f]).edges@.no_duplicates()
    }

    /// No list of the mesh holds an index twice.
    pub open spec fn lists_distinct(&self) -> bool {
        &&& forall|e: int|
            0 <= e < self.edges@.len() ==> (#[trigger] self.edges@[e]).faces@.no_duplicates()
        &&& self.face_edges_distinct()
        &&& forall|c: int|
            0 <= c < self.cells@.len() ==> (#[trigger] self.cells@[c]).faces@.no_duplicates()
        &&& forall|v: int|
            0 <= v < self.vertex_data@.len() ==> (#[trigger] self.vertex_data@[v]).cells@.no_duplicates()
    }

    /// The mesh is closed under its own references, no list holds an index
    /// twice, and the incidence lists agree with each other.
    pub open spec fn well_formed(&self) -> bool {
        &&& self.in_range()
        &&& self.lists_distinct()
        &&& self.edge_face_incidence()
        &&& self.face_cell_incidence()
        &&& self.vertex_cell_incidence()
    }
}

/// Whether every index of `list` is below `bound`.
pub fn all_below(list: &IndexList, bound: usize) -> (ok: bool)
    ensures
        ok == list_below(list@, bound as int),
{
    let n = list.len();
    let mut i: usize = 0;
    while i < n
        invariant
            n == list@.len(),
            i <= n,
            forall|k: int| 0 <= k < i ==> (#[trigger] list@[k]) < bound,
        decreases n - i,
    {
        if list.get(i) >= bound {
            return false;
        }
        i += 1;
    }
    true
}

impl Mesh {
    /// Whether every index in the mesh names something in the mesh.
    pub fn check_in_range(&self) -> (ok: bool)
        ensures
            ok == self.in_range(),
    {
        let vertex_count = self.vertex_data.len();
        if self.vertex_mirrors.len() != vertex_count {
            return false;
        }
        let mut e: usize = 0;
        while e < self.edges.len()
            invariant
                vertex_count == self.vertex_data@.len(),
                e <= self.edges@.len(),
                forall|k: int|
                    0 <= k < e ==> {
                        &&& (#[trigger] self.edges@[k]).hd_vertex < self.vertex_data@.len()
                        &&& self.edges@[k].tl_vertex < self.vertex_data@.len()
                        &&& list_below(self.edges@[k].faces@, self.faces@.len() as int)
                    },
            decreases self.edges@.len() - e,
        {
            let edge = &self.edges[e];
            if edge.hd_vertex >= vertex_count || edge.tl_vertex >= vertex_count || !all_below(
                &edge.faces,
                self.faces.len(),
            ) {
                return false;
            }
            e += 1;
        }
        let mut f: usize = 0;
        while f < self.faces.len()
            invariant
                self.edges_in_range(),
                f <= self.faces@.len(),
                forall|k: int|
                    0 <= k < f ==> {
                        &&& (#[trigger] self.faces@[k]).edges@.len() >= 2
                        &&& list_below(self.faces@[k].edges@, self.edges@.len() as int)
                        &&& cell_ref(self.faces@[k].hd_cell, self.cells@.len() as int)
                        &&& cell_ref(self.faces@[k].tl_cell, self.cells@.len() as int)
                    },
            decreases self.faces@.len() - f,
        {
            let face = &self.faces[f];
            let hd_ok = face.hd_cell < self.cells.len() || face.hd_cell == NO_CELL;
            let tl_ok = face.tl_cell < self.cells.len() || face.tl_cell == NO_CELL;
            if face.edges.len() < 2 || !hd_ok || !tl_ok || !all_below(
                &face.edges,
                self.edges.len(),
            ) {
                return false;
            }
            f += 1;
        }
        let mut c: usize = 0;
        while c < self.cells.len()
            invariant
                self.edges_in_range(),
                self.faces_in_range(),
                c <= self.cells@.len(),
                forall|k: int|
                    0 <= k < c ==> {
                        &&& (#[trigger] self.cells@[k]).faces@.len() >= 1
                        &&& list_below(self.cells@[k].faces@, self.faces@.len() as int)
                    },
            decreases self.cells@.len() - c,
        {
            let cell = &self.cells[c];
            if cell.faces.len() < 1 || !all_below(&cell.faces, self.faces.len()) {
                return false;
            }
            c += 1;
        }
        let mut v: usize = 0;
        while v < vertex_count
            invariant
                self.edges_in_range(),
                self.faces_in_range(),
                self.cells_in_range(),
                vertex_count == self.vertex_data@.len(),
                self.vertex_mirrors@.len() == vertex_count,
                v <= vertex_count,
                forall|k: int|
                    0 <= k < v ==> list_below(
                        (#[trigger] self.vertex_data@[k]).cells@,
                        self.cells@.len() as int,
                    ),
            decreases vertex_count - v,
        {
            if !all_below(&self.vertex_data[v].cells, self.cells.len()) {
                return false;
            }
            v += 1;
        }
        true
    }

    /// Whether an edge lists a face exactly when the face lists the edge.
    pub fn check_edge_face_incidence(&self) -> (ok: bool)
        requires
            self.in_range(),
        ensures
            ok == self.edge_face_incidence(),
    {
        let mut e: usize = 0;
        while e < self.edges.len()
            invariant
                self.in_range(),
                e <= self.edges@.len(),
                forall|k: int, i: int|
                    0 <= k < e && 0 <= i < self.edges@[k].faces@.len()
                        ==> self.faces@[(#[trigger] self.edges@[k].faces@[i]) as int].edges@.contains(
                    k as usize,
                    ),
            decreases self.edges@.len() - e,
        {
            let faces = &self.edges[e].faces;
            let mut i: usize = 0;
            while i < faces.len()
                invariant
                    self.in_range(),
                    e < self.edges@.len(),
                    *faces == self.edges@[e as int].faces,
                    i <= faces@.len(),
                    forall|k: int|
                        0 <= k < i ==> self.faces@[(#[trigger] faces@[k]) as int].edges@.contains(e),
                decreases faces@.len() - i,
            {
                let f = faces.get(i);
                if !self.faces[f].edges.contains(e) {
                    return false;
                }
                i += 1;
            }
            e += 1;
        }
        let mut f: usize = 0;
        while f < self.faces.len()
            invariant
                self.in_range(),
                f <= self.faces@.len(),
                forall|k: int, i: int|
                    0 <= k < self.edges@.len() && 0 <= i < self.edges@[k].faces@.len()
                        ==> self.faces@[(#[trigger] self.edges@[k].faces@[i]) as int].edges@.contains(
                    k as usize,
                    ),
                forall|k: int, i: int|
                    0 <= k < f && 0 <= i < self.faces@[k].edges@.len()
                        ==> self.edges@[(#[trigger] self.faces@[k].edges@[i]) as int].faces@.contains(
                    k as usize,
                    ),
            decreases self.faces@.len() - f,
        {
            let edges = &self.faces[f].edges;
            let mut i: usize = 0;
            while i < edges.len()
                invariant
                    self.in_range(),
                    f < self.faces@.len(),
                    *edges == self.faces@[f as int].edges,
                    i <= edges@.len(),
                    forall|k: int|
                        0 <= k < i ==> self.edges@[(#[trigger] edges@[k]) as int].faces@.contains(f),
                decreases edges@.len() - i,
            {
                let e = edges.get(i);
                if !self.edges[e].faces.contains(f) {
                    return false;
                }
                i += 1;
            }
            f += 1;
        }
        true
    }

    /// Whether a cell lists a face exactly when the face names the cell.
    pub fn check_face_cell_incidence(&self) -> (ok: bool)
        requires
            self.in_range(),
        ensures
            ok == self.face_cell_incidence(),
    {
        let mut c: usize = 0;
        while c < self.cells.len()
            invariant
                self.in_range(),
                c <= self.cells@.len(),
                forall|k: int, i: int|
                    0 <= k < c && 0 <= i < self.cells@[k].faces@.len() ==> {
                        let f = (#[trigger] self.cells@[k].faces@[i]) as int;
                        self.faces@[f].hd_cell == k || self.faces@[f].tl_cell == k
                    },
            decreases self.cells@.len() - c,
        {
            let faces = &self.cells[c].faces;
            let mut i: usize = 0;
            while i < faces.len()
                invariant
                    self.in_range(),
                    c < self.cells@.len(),
                    *faces == self.cells@[c as int].faces,
                    i <= faces@.len(),
                    forall|k: int|
                        0 <= k < i ==> {
                            let f = (#[trigger] faces@[k]) as int;
                            self.faces@[f].hd_cell == c || self.faces@[f].tl_cell == c
                        },
                decreases faces@.len() - i,
            {
                let f = faces.get(i);
                if self.faces[f].hd_cell != c && self.faces[f].tl_cell != c {
                    return false;
                }
                i += 1;
            }
            c += 1;
        }
        let mut f: usize = 0;
        while f < self.faces.len()
            invariant
                self.in_range(),
                f <= self.faces@.len(),
                forall|k: int|
                    0 <= k < f ==> {
                        &&& (#[trigger] self.faces@[k]).hd_cell != NO_CELL
                            ==> self.cells@[self.faces@[k].hd_cell as int].faces@.contains(
                            k as usize,
                        )
                        &&& self.faces@[k].tl_cell != NO_CELL
                            ==> self.cells@[self.faces@[k].tl_cell as int].faces@.contains(
                            k as usize,
                        )
                    },
            decreases self.faces@.len() - f,
        {
            let face = &self.faces[f];
            if face.hd_cell != NO_CELL && !self.cells[face.hd_cell].faces.contains(f) {
                return false;
            }
            if face.tl_cell != NO_CELL && !self.cells[face.tl_cell].faces.contains(f) {
                return false;
            }
            f += 1;
        }
        true
    }

    /// Whether the vertices of every edge of every face of a cell list that
    /// cell.
    pub fn check_vertex_cell_incidence(&self) -> (ok: bool)
        requires
            self.in_range(),
        ensures
            ok == self.vertex_cell_incidence(),
    {
        let mut c: usize = 0;
        while c < self.cells.len()
            invariant
                self.in_range(),
                c <= self.cells@.len(),
                forall|k: int, i: int, j: int|
                    0 <= k < c && 0 <= i < self.cells@[k].faces@.len() && 0 <= j
                        < self.faces@[self.cells@[k].faces@[i] as int].edges@.len() ==> {
                        let e = (
                        #[trigger] self.faces@[self.cells@[k].faces@[i] as int].edges@[j]) as int;
                        &&& self.vertex_data@[self.edges@[e].hd_vertex as int].cells@.contains(
                            k as usize,
                        )
                        &&& self.vertex_data@[self.edges@[e].tl_vertex as int].cells@.contains(
                            k as usize,
                        )
                    },
            decreases self.cells@.len() - c,
        {
            let faces = &self.cells[c].faces;
            let mut i: usize = 0;
            while i < faces.len()
                invariant
                    self.in_range(),
                    c < self.cells@.len(),
                    *faces == self.cells@[c as int].faces,
                    i <= faces@.len(),
                    forall|k: int, j: int|
                        0 <= k < i && 0 <= j < self.faces@[faces@[k] as int].edges@.len() ==> {
                            let e = (#[trigger] self.faces@[faces@[k] as int].edges@[j]) as int;
                            &&& self.vertex_data@[self.edges@[e].hd_vertex as int].cells@.contains(c)
                            &&& self.vertex_data@[self.edges@[e].tl_vertex as int].cells@.contains(c)
                        },
                decreases faces@.len() - i,
            {
                let f = faces.get(i);
                let edges = &self.faces[f].edges;
                let mut j: usize = 0;
                while j < edges.len()
                    invariant
                        self.in_range(),
                        c < self.cells@.len(),
                        f < self.faces@.len(),
                        i < faces@.len(),
                        *faces == self.cells@[c as int].faces,
                        f == faces@[i as int],
                        *edges == self.faces@[f as int].edges,
                        j <= edges@.len(),
                        forall|k: int|
                            0 <= k < j ==> {
                                let e = (#[trigger] edges@[k]) as int;
                                &&& self.vertex_data@[self.edges@[e].hd_vertex as int].cells@.contains(
                                    c,
                                )
                                &&& self.vertex_data@[self.edges@[e].tl_vertex as int].cells@.contains(
                                    c,
                                )
                            },
                    decreases edges@.len() - j,
                {
                    let e = edges.get(j);
                    let edge = &self.edges[e];
                    if !self.vertex_data[edge.hd_vertex].cells.contains(c)
                        || !self.vertex_data[edge.tl_vertex].cells.contains(c) {
                        assert(self.faces@[self.cells@[c as int].faces@[i as int] as int].edges@[j as int]
                            == e);
                        return false;
                    }
                    j += 1;
                }
                i += 1;
            }
            c += 1;
        }
        true
    }

    /// Whether no list of the mesh holds an index twice.
    pub fn check_lists_distinct(&self) -> (ok: bool)
        ensures
            ok == self.lists_distinct(),
    {
        let mut e: usize = 0;
        while e < self.edges.len()
            invariant
                e <= self.edges@.len(),
                forall|k: int| 0 <= k < e ==> (#[trigger] self.edges@[k]).faces@.no_duplicates(),
            decreases self.edges@.len() - e,
        {
            if !self.edges[e].faces.is_distinct() {
                return false;
            }
            e += 1;
        }
        let mut f: usize = 0;
        while f < self.faces.len()
            invariant
                f <= self.faces@.len(),
                forall|k: int| 0 <= k < f ==> (#[trigger] self.faces@[k]).edges@.no_duplicates(),
            decreases self.faces@.len() - f,
        {
            if !self.faces[f].edges.is_distinct() {
                return false;
            }
            f += 1;
        }
        let mut c: usize = 0;
        while c < self.cells.len()
            invariant
                c <= self.cells@.len(),
                forall|k: int| 0 <= k < c ==> (#[trigger] self.cells@[k]).faces@.no_duplicates(),
            decreases self.cells@.len() - c,
        {
            if !self.cells[c].faces.is_distinct() {
                return false;
            }
            c += 1;
        }
        let mut v: usize = 0;
        while v < self.vertex_data.len()
            invariant
                self.face_edges_distinct(),
                forall|k: int|
                    0 <= k < self.edges@.len() ==> (#[trigger] self.edges@[k]).faces@.no_duplicates(),
                forall|k: int|
                    0 <= k < self.cells@.len() ==> (#[trigger] self.cells@[k]).faces@.no_duplicates(),
                v <= self.vertex_data@.len(),
                forall|k: int|
                    0 <= k < v ==> (#[trigger] self.vertex_data@[k]).cells@.no_duplicates(),
            decreases self.vertex_data@.len() - v,
        {
            if !self.vertex_data[v].cells.is_distinct() {
                return false;
            }
            v += 1;
        }
        true
    }

    /// Whether the mesh is well formed.
    pub fn validate(&self) -> (ok: bool)
        ensures
            ok == self.well_formed(),
    {
        self.check_in_range() && self.check_lists_distinct() && self.check_edge_face_incidence()
            && self.check_face_cell_incidence() && self.check_vertex_cell_incidence()
    }
}


impl Mesh {
    /// The vertex that stands for an edge: its head.
    pub fn edge_representative_vertex(&self, edge_idx: usize) -> (v: usize)
        requires
            self.in_range(),
            edge_idx < self.edges@.len(),
        ensures
            v == self.edges@[edge_idx as int].hd_vertex,
            v < self.vertex_data@.len(),
    {
        self.edges[edge_idx].hd_vertex
    }

    /// The vertex that stands for a face: the one of its first edge.
    pub fn face_representative_vertex(&self, face_idx: usize) -> (v: usize)
        requires
            self.in_range(),
            face_idx < self.faces@.len(),
        ensures
            v == self.edges@[self.faces@[face_idx as int].edges@[0] as int].hd_vertex,
            v < self.vertex_data@.len(),
    {
        let e = self.faces[face_idx].edges.get(0);
        self.edge_representative_vertex(e)
    }

    /// The vertex that stands for a cell: the one of its first face.
    pub fn cell_representative_vertex(&self, cell_idx: usize) -> (v: usize)
        requires
            self.in_range(),
            cell_idx < self.cells@.len(),
        ensures
            v == self.edges@[self.faces@[self.cells@[cell_idx as int].faces@[0] as int].edges@[0] as int].hd_vertex,
            v < self.vertex_data@.len(),
    {
        let f = self.cells[cell_idx].faces.get(0);
        self.face_representative_vertex(f)
    }

    /// The cell on the other side of a face, seen from the cell `cell_idx`:
    /// the tail cell if `cell_idx` is the head cell, else the head cell.
    pub fn adjacent_cell(&self, face_idx: usize, cell_idx: usize) -> (other: usize)
        requires
            self.in_range(),
            face_idx < self.faces@.len(),
        ensures
            other == if self.faces@[face_idx as int].hd_cell == cell_idx {
                self.faces@[face_idx as int].tl_cell
            } else {
                self.faces@[face_idx as int].hd_cell
            },
            cell_ref(other, self.cells@.len() as int),
    {
        let face = &self.faces[face_idx];
        if face.hd_cell == cell_idx {
            face.tl_cell
        } else {
            face.hd_cell
        }
    }

    /// The two vertices of an edge, head first.
    pub fn edge_vertices(&self, edge_idx: usize) -> (ends: (usize, usize))
        requires
            self.in_range(),
            edge_idx < self.edges@.len(),
        ensures
            ends.0 == self.edges@[edge_idx as int].hd_vertex,
            ends.1 == self.edges@[edge_idx as int].tl_vertex,
            ends.0 < self.vertex_data@.len(),
            ends.1 < self.vertex_data@.len(),
    {
        (self.edges[edge_idx].hd_vertex, self.edges[edge_idx].tl_vertex)
    }
}

/// The word that repeats the pair `a`, `b` `n` times.
pub open spec fn repeat_pair(a: usize, b: usize, n: nat) -> Seq<usize> {
    Seq::new(2 * n, |i: int| if i % 2 == 0 { a } else { b })
}

/// The relators of the Coxeter group with the Schläfli symbol `symbol`:
/// each of the four mirrors is an involution, neighbouring mirrors meet at
/// the angles of the symbol, and all other pairs of mirrors are
/// perpendicular.
pub open spec fn schlafli_words(symbol: [usize; 3]) -> Seq<Seq<usize>> {
    seq![
        repeat_pair(0, 0, 1),
        repeat_pair(1, 1, 1),
        repeat_pair(2, 2, 1),
        repeat_pair(3, 3, 1),
        repeat_pair(0, 1, symbol[0] as nat),
        repeat_pair(1, 2, symbol[1] as nat),
        repeat_pair(2, 3, symbol[2] as nat),
        repeat_pair(0, 2, 2),
        repeat_pair(0, 3, 2),
        repeat_pair(1, 3, 2),
    ]
}

/// The word that repeats the pair `a`, `b` `n` times.
pub fn repeated_pair(a: usize, b: usize, n: usize) -> (word: Vec<usize>)
    ensures
        word@ == repeat_pair(a, b, n as nat),
{
    let mut word: Vec<usize> = Vec::new();
    let mut k: usize = 0;
    while k < n
        invariant
            k <= n,
            word@ == repeat_pair(a, b, k as nat),
        decreases n - k,
    {
        word.push(a);
        word.push(b);
        assert(word@ =~= repeat_pair(a, b, (k + 1) as nat));
        k += 1;
    }
    word
}

/// The relators of the Coxeter group with the Schläfli symbol `symbol`.
pub fn schlafli_relations(symbol: &[usize; 3]) -> (words: Vec<Vec<usize>>)
    ensures
        rows_of(&words) == schlafli_words(*symbol),
        letters_below(rows_of(&words), 4),
{
    let mut words: Vec<Vec<usize>> = Vec::new();
    words.push(repeated_pair(0, 0, 1));
    words.push(repeated_pair(1, 1, 1));
    words.push(repeated_pair(2, 2, 1));
    words.push(repeated_pair(3, 3, 1));
    words.push(repeated_pair(0, 1, symbol[0]));
    words.push(repeated_pair(1, 2, symbol[1]));
    words.push(repeated_pair(2, 3, symbol[2]));
    words.push(repeated_pair(0, 2, 2));
    words.push(repeated_pair(0, 3, 2));
    words.push(repeated_pair(1, 3, 2));
    assert(rows_of(&words) =~= schlafli_words(*symbol));
    assert forall|r: int, k: int|
        0 <= r < rows_of(&words).len() && 0 <= k < rows_of(&words)[r].len() implies (
    #[trigger] rows_of(&words)[r][k]) < 4 by {
        assert(rows_of(&words)[r] == words@[r]@);
    }
    words
}

/// The words of `words` as slices.
pub fn as_slices<'a>(words: &'a Vec<Vec<usize>>) -> (slices: Vec<&'a [usize]>)
    ensures
        slices@.len() == words@.len(),
        forall|i: int| 0 <= i < words@.len() ==> (#[trigger] slices@[i])@ == words@[i]@,
{
    let mut slices: Vec<&'a [usize]> = Vec::new();
    let mut i: usize = 0;
    while i < words.len()
        invariant
            i <= words@.len(),
            slices@.len() == i,
            forall|k: int| 0 <= k < i ==> (#[trigger] slices@[k])@ == words@[k]@,
        decreases words@.len() - i,
    {
        slices.push(words[i].as_slice());
        i += 1;
    }
    slices
}

/// The coset that the rotation "`g1`, then `g2`" carries the coset 0 to
/// when it is applied `k` times.
pub open spec fn turned(t: Seq<Seq<usize>>, g1: usize, g2: usize, k: nat) -> int
    decreases k,
{
    if k == 0 {
        0
    } else {
        t[t[turned(t, g1, g2, (k - 1) as nat)][g1 as int] as int][g2 as int] as int
    }
}

/// The cosets that the rotation "`g1`, then `g2`" carries the coset 0
/// through before it first comes back to 0, or `None` if it does not come
/// back within as many steps as the table has rows.
pub fn rotation_orbit(table: &Vec<Vec<usize>>, g1: usize, g2: usize) -> (orbit: Option<IndexList>)
    requires
        in_range(rows_of(table)),
        table@.len() >= 1,
        forall|c: int| 0 <= c < table@.len() ==> g1 < (#[trigger] table@[c])@.len() && g2 < table@[c]@.len(),
    ensures
        match orbit {
            Some(list) => {
                &&& 1 <= list@.len() <= table@.len()
                &&& list_below(list@, table@.len() as int)
                &&& forall|k: int|
                    0 <= k < list@.len() ==> #[trigger] list@[k] == turned(
                        rows_of(table),
                        g1,
                        g2,
                        k as nat,
                    )
                &&& forall|k: int| 1 <= k < list@.len() ==> #[trigger] list@[k] != 0
                &&& turned(rows_of(table), g1, g2, list@.len()) == 0
            },
            None => forall|k: int|
                1 <= k <= table@.len() ==> #[trigger] turned(rows_of(table), g1, g2, k as nat)
                    != 0,
        },
{
    let ghost t = rows_of(table);
    let mut list = IndexList::new();
    let mut curr: usize = 0;
    let mut steps: usize = 0;
    while steps < table.len()
        invariant
            t == rows_of(table),
            in_range(t),
            table@.len() >= 1,
            forall|c: int|
                0 <= c < table@.len() ==> g1 < (#[trigger] table@[c])@.len() && g2
                    < table@[c]@.len(),
            steps <= table@.len(),
            list@.len() == steps,
            curr < table@.len(),
            curr == turned(t, g1, g2, steps as nat),
            list_below(list@, table@.len() as int),
            forall|k: int| 0 <= k < list@.len() ==> #[trigger] list@[k] == turned(t, g1, g2, k as nat),
            forall|k: int| 1 <= k <= steps ==> #[trigger] turned(t, g1, g2, k as nat) != 0,
        decreases table@.len() - steps,
    {
        list.push(curr);
        let mid = table[curr][g1];
        assert(mid == t[curr as int][g1 as int]);
        let next = table[mid][g2];
        assert(next == t[mid as int][g2 as int]);
        steps += 1;
        assert(next == turned(t, g1, g2, steps as nat));
        if next == 0 {
            return Some(list);
        }
        curr = next;
    }
    None
}

/// The first `width` columns of `table`.
pub fn first_columns(table: &Vec<Vec<usize>>, width: usize) -> (sub: Vec<Vec<usize>>)
    requires
        forall|c: int| 0 <= c < table@.len() ==> width <= (#[trigger] table@[c])@.len(),
    ensures
        sub@.len() == table@.len(),
        forall|c: int|
            0 <= c < table@.len() ==> (#[trigger] sub@[c])@ == table@[c]@.take(width as int),
{
    let mut sub: Vec<Vec<usize>> = Vec::new();
    let mut c: usize = 0;
    while c < table.len()
        invariant
            forall|c: int| 0 <= c < table@.len() ==> width <= (#[trigger] table@[c])@.len(),
            c <= table@.len(),
            sub@.len() == c,
            forall|k: int| 0 <= k < c ==> (#[trigger] sub@[k])@ == table@[k]@.take(width as int),
        decreases table@.len() - c,
    {
        let mut row: Vec<usize> = Vec::new();
        let mut g: usize = 0;
        while g < width
            invariant
                c < table@.len(),
                width <= table@[c as int]@.len(),
                g <= width,
                row@ == table@[c as int]@.take(g as int),
            decreases width - g,
        {
            row.push(table[c][g]);
            assert(table@[c as int]@.take(g + 1) =~= table@[c as int]@.take(g as int).push(
                table@[c as int]@[g as int],
            ));
            g += 1;
        }
        sub.push(row);
        c += 1;
    }
    sub
}

/// What carrying values along a tree needs of the tree: every
/// coset of `order` has its position in `slot`, and every coset but the
/// first was found from an earlier position.
pub open spec fn tree_shape(order: Seq<usize>, link: Seq<(usize, usize)>, slot: Seq<Option<usize>>) -> bool {
    &&& order.len() >= 1
    &&& link.len() == order.len()
    &&& forall|k: int|
        0 <= k < order.len() ==> (#[trigger] order[k]) < slot.len() && slot[order[k] as int] == Some(
            k as usize,
        )
    &&& forall|k: int| 1 <= k < order.len() ==> (#[trigger] link[k]).0 < k
}

/// Every generator of the tree is a column of every row of `map_table`.
pub open spec fn links_fit(link: Seq<(usize, usize)>, map_table: Seq<Seq<usize>>) -> bool {
    forall|k: int, c: int|
        1 <= k < link.len() && 0 <= c < map_table.len() ==> (#[trigger] link[k]).1 < (
        #[trigger] map_table[c]).len()
}

/// A breadth-first tree of a table with rows of `width` entries has the
/// shape that carrying values needs, and its generators are below `width`.
pub proof fn lemma_bfs_tree_shape(
    t: Seq<Seq<usize>>,
    width: nat,
    order: Seq<usize>,
    link: Seq<(usize, usize)>,
    slot: Seq<Option<usize>>,
)
    requires
        is_bfs_tree(t, 0, order, link, slot),
        rectangular(t, width),
    ensures
        tree_shape(order, link, slot),
        slot.len() == t.len(),
        forall|k: int| 1 <= k < link.len() ==> (#[trigger] link[k]).1 < width,
{
    assert forall|k: int| 1 <= k < order.len() implies (#[trigger] link[k]).0 < k && link[k].1
        < width by {
        assert(tree_edge(t, order, link[k], k));
    }
}

/// The indices `images` are carried along the tree: the first coset holds
/// `initial`, and every other coset of `order` holds the entry of
/// `map_table` for the index of the coset it was found from and the
/// generator it was found by.
pub open spec fn index_carried(
    order: Seq<usize>,
    link: Seq<(usize, usize)>,
    map_table: Seq<Seq<usize>>,
    initial: usize,
    images: Seq<usize>,
) -> bool {
    &&& images[order[0] as int] == initial
    &&& forall|q: int|
        1 <= q < order.len() ==> #[trigger] images[order[q] as int]
            == map_table[images[order[link[q].0 as int] as int] as int][link[q].1 as int]
}

/// Carries the index `initial` along a tree, as `index_carried`
/// describes. A coset outside the tree holds `initial`.
pub fn carry_index(tree: &BfsTree, map_table: &Vec<Vec<usize>>, initial: usize) -> (images: Vec<
    usize,
>)
    requires
        tree_shape(tree.order@, tree.link@, tree.slot@),
        links_fit(tree.link@, rows_of(map_table)),
        in_range(rows_of(map_table)),
        initial < map_table@.len(),
    ensures
        images@.len() == tree.slot@.len(),
        list_below(images@, map_table@.len() as int),
        index_carried(tree.order@, tree.link@, rows_of(map_table), initial, images@),
        forall|u: int| 0 <= u < tree.slot@.len() && tree.slot@[u] is None ==> images@[u] == initial,
{
    let n = tree.slot.len();
    let ghost m = rows_of(map_table);
    let mut images: Vec<usize> = Vec::new();
    let mut v: usize = 0;
    while v < n
        invariant
            v <= n,
            images@.len() == v,
            forall|u: int| 0 <= u < v ==> images@[u] == initial,
        decreases n - v,
    {
        images.push(initial);
        v += 1;
    }
    let mut k: usize = 1;
    while k < tree.order.len()
        invariant
            n == tree.slot@.len(),
            m == rows_of(map_table),
            tree_shape(tree.order@, tree.link@, tree.slot@),
            links_fit(tree.link@, m),
            in_range(m),
            initial < map_table@.len(),
            images@.len() == n,
            1 <= k <= tree.order@.len(),
            list_below(images@, map_table@.len() as int),
            images@[tree.order@[0] as int] == initial,
            forall|q: int|
                1 <= q < k ==> #[trigger] images@[tree.order@[q] as int]
                    == m[images@[tree.order@[tree.link@[q].0 as int] as int] as int][tree.link@[q].1 as int],
            forall|u: int|
                0 <= u < n && (tree.slot@[u] is None || tree.slot@[u]->Some_0 >= k) && u
                    != tree.order@[0] ==> images@[u] == initial,
        decreases tree.order@.len() - k,
    {
        let (from, g) = tree.link[k];
        let source = images[tree.order[from]];
        assert(tree.link@[k as int].1 < m[source as int].len());
        let image = map_table[source][g];
        assert(image == m[source as int][g as int]);
        let ghost before = images@;
        images[tree.order[k]] = image;
        proof {
            assert forall|q: int| 1 <= q < k + 1 implies #[trigger] images@[tree.order@[q] as int]
                == m[images@[tree.order@[tree.link@[q].0 as int] as int] as int][tree.link@[q].1 as int] by {
                if q < k {
                    assert(before[tree.order@[q] as int]
                        == m[before[tree.order@[tree.link@[q].0 as int] as int] as int][tree.link@[q].1 as int]);
                }
            }
        }
        k += 1;
    }
    images
}

/// The list `s` with every index replaced by its entry in column `g`.
pub open spec fn map_list(map_table: Seq<Seq<usize>>, s: Seq<usize>, g: usize) -> Seq<usize> {
    Seq::new(s.len(), |i: int| map_table[s[i] as int][g as int])
}

/// Replaces every index of `list` by its entry in column `g` of
/// `map_table`.
pub fn map_through(list: &IndexList, map_table: &Vec<Vec<usize>>, g: usize) -> (image: IndexList)
    requires
        list_below(list@, map_table@.len() as int),
        forall|c: int| 0 <= c < map_table@.len() ==> g < (#[trigger] map_table@[c])@.len(),
        in_range(rows_of(map_table)),
    ensures
        image@ == map_list(rows_of(map_table), list@, g),
        list_below(image@, map_table@.len() as int),
{
    let ghost m = rows_of(map_table);
    let mut image = IndexList::new();
    let n = list.len();
    let mut i: usize = 0;
    while i < n
        invariant
            m == rows_of(map_table),
            list_below(list@, map_table@.len() as int),
            forall|c: int| 0 <= c < map_table@.len() ==> g < (#[trigger] map_table@[c])@.len(),
            in_range(m),
            n == list@.len(),
            i <= n,
            image@ == map_list(m, list@.take(i as int), g),
            list_below(image@, map_table@.len() as int),
        decreases n - i,
    {
        let x = list.get(i);
        assert(list@[i as int] < map_table@.len());
        let y = map_table[x][g];
        assert(y == m[x as int][g as int]);
        image.push(y);
        assert(image@ =~= map_list(m, list@.take(i + 1), g));
        i += 1;
    }
    assert(list@.take(n as int) =~= list@);
    image
}

/// The lists `images` are carried along the tree: the first coset holds
/// `initial`, and every other coset of `order` holds the list of the coset
/// it was found from, mapped through the column of the generator it was
/// found by.
pub open spec fn lists_carried(
    order: Seq<usize>,
    link: Seq<(usize, usize)>,
    map_table: Seq<Seq<usize>>,
    initial: Seq<usize>,
    images: Seq<Seq<usize>>,
) -> bool {
    &&& images[order[0] as int] == initial
    &&& forall|q: int|
        1 <= q < order.len() ==> #[trigger] images[order[q] as int] == map_list(
            map_table,
            images[order[link[q].0 as int] as int],
            link[q].1,
        )
}

/// The lists of `lists` as sequences.
pub open spec fn lists_view(lists: Seq<IndexList>) -> Seq<Seq<usize>> {
    Seq::new(lists.len(), |i: int| lists[i]@)
}

/// Carries the list `initial` along a tree, as `lists_carried`
/// describes. A coset outside the tree holds `initial`.
pub fn carry_list(tree: &BfsTree, map_table: &Vec<Vec<usize>>, initial: &IndexList) -> (images: Vec<
    IndexList,
>)
    requires
        tree_shape(tree.order@, tree.link@, tree.slot@),
        links_fit(tree.link@, rows_of(map_table)),
        in_range(rows_of(map_table)),
        list_below(initial@, map_table@.len() as int),
    ensures
        images@.len() == tree.slot@.len(),
        forall|u: int|
            0 <= u < images@.len() ==> list_below((#[trigger] images@[u])@, map_table@.len() as int),
        forall|u: int| 0 <= u < images@.len() ==> (#[trigger] images@[u])@.len() == initial@.len(),
        lists_carried(
            tree.order@,
            tree.link@,
            rows_of(map_table),
            initial@,
            lists_view(images@),
        ),
        forall|u: int|
            0 <= u < tree.slot@.len() && tree.slot@[u] is None ==> (#[trigger] images@[u])@
                == initial@,
{
    let n = tree.slot.len();
    let ghost m = rows_of(map_table);
    let mut images: Vec<IndexList> = Vec::new();
    let mut v: usize = 0;
    while v < n
        invariant
            v <= n,
            images@.len() == v,
            forall|u: int| 0 <= u < v ==> (#[trigger] images@[u])@ == initial@,
        decreases n - v,
    {
        images.push(initial.duplicate());
        v += 1;
    }
    let mut k: usize = 1;
    while k < tree.order.len()
        invariant
            n == tree.slot@.len(),
            m == rows_of(map_table),
            tree_shape(tree.order@, tree.link@, tree.slot@),
            links_fit(tree.link@, m),
            in_range(m),
            list_below(initial@, map_table@.len() as int),
            images@.len() == n,
            1 <= k <= tree.order@.len(),
            forall|u: int|
                0 <= u < n ==> list_below((#[trigger] images@[u])@, map_table@.len() as int),
            forall|u: int| 0 <= u < n ==> (#[trigger] images@[u])@.len() == initial@.len(),
            images@[tree.order@[0] as int]@ == initial@,
            forall|q: int|
                1 <= q < k ==> (#[trigger] images@[tree.order@[q] as int])@ == map_list(
                    m,
                    images@[tree.order@[tree.link@[q].0 as int] as int]@,
                    tree.link@[q].1,
                ),
            forall|u: int|
                0 <= u < n && (tree.slot@[u] is None || tree.slot@[u]->Some_0 >= k) && u
                    != tree.order@[0] ==> (#[trigger] images@[u])@ == initial@,
        decreases tree.order@.len() - k,
    {
        let (from, g) = tree.link[k];
        let source = tree.order[from];
        assert forall|c: int| 0 <= c < map_table@.len() implies g < (#[trigger] map_table@[c])@.len() by {
            assert(tree.link@[k as int].1 < m[c].len());
        }
        let image = map_through(&images[source], map_table, g);
        let ghost before = images@;
        images[tree.order[k]] = image;
        proof {
            assert forall|q: int| 1 <= q < k + 1 implies (
            #[trigger] images@[tree.order@[q] as int])@ == map_list(
                m,
                images@[tree.order@[tree.link@[q].0 as int] as int]@,
                tree.link@[q].1,
            ) by {
                if q < k {
                    assert(before[tree.order@[q] as int]@ == map_list(
                        m,
                        before[tree.order@[tree.link@[q].0 as int] as int]@,
                        tree.link@[q].1,
                    ));
                }
            }
        }
        k += 1;
    }
    proof {
        let lv = lists_view(images@);
        assert forall|q: int| 1 <= q < tree.order@.len() implies #[trigger] lv[tree.order@[q] as int]
            == map_list(m, lv[tree.order@[tree.link@[q].0 as int] as int], tree.link@[q].1) by {
            assert(images@[tree.order@[q] as int]@ == map_list(
                m,
                images@[tree.order@[tree.link@[q].0 as int] as int]@,
                tree.link@[q].1,
            ));
        }
    }
    images
}


/// Every letter of every word is one of the four mirrors.
pub open spec fn mirror_words(words: Seq<Seq<usize>>) -> bool {
    forall|v: int, k: int| 0 <= v < words.len() && 0 <= k < words[v].len() ==> (#[trigger] words[v][k]) < 4
}

/// Whether every letter of `word` is one of the four mirrors.
pub fn is_mirror_word(word: &Vec<usize>) -> (ok: bool)
    ensures
        ok == (forall|k: int| 0 <= k < word@.len() ==> (#[trigger] word@[k]) < 4),
{
    let mut k: usize = 0;
    while k < word.len()
        invariant
            k <= word@.len(),
            forall|j: int| 0 <= j < k ==> (#[trigger] word@[j]) < 4,
        decreases word@.len() - k,
    {
        if word[k] >= 4 {
            return false;
        }
        k += 1;
    }
    true
}

impl Mesh {
    /// The mirrors of every vertex and of every cell are among the four
    /// mirrors of the group.
    pub open spec fn mirrors_in_range(&self) -> bool {
        &&& mirror_words(rows_of(&self.vertex_mirrors))
        &&& forall|c: int, k: int|
            0 <= c < self.cells@.len() && 0 <= k < self.cells@[c].mirrors@.len() ==> (
            #[trigger] self.cells@[c].mirrors@[k]) < 4
    }

    /// Whether the mirrors of every vertex and of every cell are among the
    /// four mirrors of the group.
    pub fn check_mirrors(&self) -> (ok: bool)
        ensures
            ok == self.mirrors_in_range(),
    {
        let mut v: usize = 0;
        while v < self.vertex_mirrors.len()
            invariant
                v <= self.vertex_mirrors@.len(),
                forall|u: int, k: int|
                    0 <= u < v && 0 <= k < rows_of(&self.vertex_mirrors)[u].len() ==> (
                    #[trigger] rows_of(&self.vertex_mirrors)[u][k]) < 4,
            decreases self.vertex_mirrors@.len() - v,
        {
            if !is_mirror_word(&self.vertex_mirrors[v]) {
                let ghost k = choose|k: int|
                    0 <= k < self.vertex_mirrors@[v as int]@.len() && !(
                    #[trigger] self.vertex_mirrors@[v as int]@[k] < 4);
                assert(!(rows_of(&self.vertex_mirrors)[v as int][k] < 4));
                return false;
            }
            v += 1;
        }
        let mut c: usize = 0;
        while c < self.cells.len()
            invariant
                mirror_words(rows_of(&self.vertex_mirrors)),
                c <= self.cells@.len(),
                forall|u: int, k: int|
                    0 <= u < c && 0 <= k < self.cells@[u].mirrors@.len() ==> (
                    #[trigger] self.cells@[u].mirrors@[k]) < 4,
            decreases self.cells@.len() - c,
        {
            if !is_mirror_word(&self.cells[c].mirrors) {
                return false;
            }
            c += 1;
        }
        true
    }

    /// The mesh of the regular polytope with the Schläfli symbol `symbol`.
    ///
    /// The vertices, edges, faces and cells are the cosets of the four
    /// subgroups that three of the four mirrors generate. The first edge
    /// joins the first two vertices and lies in the faces that the rotation
    /// about it carries the first face through; the first face is bounded by
    /// the edges that its own rotation carries the first edge through; the
    /// first cell is bounded by the faces that the first three mirrors carry
    /// the first face to. Everything else is carried there from the first of
    /// its kind by the mirrors, as `is_polytope` says. The cells of a face
    /// and of a vertex are named in their order.
    ///
    /// A symbol with a zero gives `EmptyRelator`; an enumeration that does
    /// not end within `DEFAULT_COSET_LIMIT` rows gives `TableFull`; tables
    /// without a second vertex, or in which a rotation does not come back,
    /// and a mesh that is not well formed and closed give `Malformed`.
    pub fn from_schlafli_symbol(symbol: &[usize; 3]) -> (mesh: Result<Mesh, MeshError>)
        ensures
            match mesh {
                Ok(m) => !has_zero(*symbol) && all_enumerated(*symbol) && m.is_polytope(*symbol)
                    && m.in_order() && m.well_formed() && m.closed() && m.mirrors_in_range(),
                Err(MeshError::EmptyRelator) => has_zero(*symbol),
                Err(MeshError::Enumeration(e)) => !has_zero(*symbol) && e
                    == EnumerationError::TableFull && !all_enumerated(*symbol),
                Err(MeshError::Malformed) => !has_zero(*symbol) && all_enumerated(*symbol) && (
                no_polytope(*symbol) || no_closed_polytope(*symbol)),
            },
    {
        if symbol[0] == 0 || symbol[1] == 0 || symbol[2] == 0 {
            return Err(MeshError::EmptyRelator);
        }
        let words = schlafli_relations(symbol);
        let slices = as_slices(&words);
        let relations = slices.as_slice();
        assert(no_empty_word(words_of(relations))) by {
            assert forall|r: int| 0 <= r < words_of(relations).len() implies (
            #[trigger] words_of(relations)[r]).len() >= 1 by {
                assert(words_of(relations)[r] == rows_of(&words)[r]);
                let all = schlafli_words(*symbol);
                assert(rows_of(&words) == all);
                assert(all[0].len() == 2 && all[1].len() == 2 && all[2].len() == 2 && all[3].len()
                    == 2);
                assert(all[4].len() == 2 * symbol[0] && all[5].len() == 2 * symbol[1]
                    && all[6].len() == 2 * symbol[2]);
                assert(all[7].len() == 4 && all[8].len() == 4 && all[9].len() == 4);
                assert(all.len() == 10);
                assert(r == 0 || r == 1 || r == 2 || r == 3 || r == 4 || r == 5 || r == 6 || r == 7
                    || r == 8 || r == 9);
                assert(all[r].len() >= 1);
            }
        }
        assert(letters_below(words_of(relations), 4)) by {
            assert forall|r: int, k: int|
                0 <= r < words_of(relations).len() && 0 <= k < words_of(relations)[r].len() implies (
            #[trigger] words_of(relations)[r][k]) < 4 by {
                assert(words_of(relations)[r] == rows_of(&words)[r]);
                assert(rows_of(&words)[r][k] < 4);
            }
        }
        let vertex_gens: Vec<usize> = vec![1, 2, 3];
        let edge_gens: Vec<usize> = vec![0, 2, 3];
        let face_gens: Vec<usize> = vec![0, 1, 3];
        let cell_gens: Vec<usize> = vec![0, 1, 2];
        proof {
            assert(words_of(relations) =~= schlafli_words(*symbol)) by {
                assert(rows_of(&words) == schlafli_words(*symbol));
                assert forall|r: int| 0 <= r < words_of(relations).len() implies words_of(
                    relations,
                )[r] == rows_of(&words)[r] by {}
            }
            assert(vertex_gens@ =~= seq![1usize, 2usize, 3usize]);
            assert(edge_gens@ =~= seq![0usize, 2usize, 3usize]);
            assert(face_gens@ =~= seq![0usize, 1usize, 3usize]);
            assert(cell_gens@ =~= seq![0usize, 1usize, 2usize]);
            assert(presentation_fits(words_of(relations), vertex_gens@, 4));
            assert(presentation_fits(words_of(relations), edge_gens@, 4));
            assert(presentation_fits(words_of(relations), face_gens@, 4));
            assert(presentation_fits(words_of(relations), cell_gens@, 4));
        }
        let vertex_table = match coset_table(4, relations, vertex_gens.as_slice()) {
            Ok(t) => t,
            Err(e) => { return Err(MeshError::Enumeration(e)); },
        };
        let edge_table = match coset_table(4, relations, edge_gens.as_slice()) {
            Ok(t) => t,
            Err(e) => { return Err(MeshError::Enumeration(e)); },
        };
        let face_table = match coset_table(4, relations, face_gens.as_slice()) {
            Ok(t) => t,
            Err(e) => { return Err(MeshError::Enumeration(e)); },
        };
        let cell_table = match coset_table(4, relations, cell_gens.as_slice()) {
            Ok(t) => t,
            Err(e) => { return Err(MeshError::Enumeration(e)); },
        };
        let ghost vt = rows_of(&vertex_table);
        let ghost et = rows_of(&edge_table);
        let ghost ft = rows_of(&face_table);
        let ghost ct = rows_of(&cell_table);
        assert(element_tables(*symbol, vt, et, ft, ct));
        if vertex_table.len() < 2 {
            return Err(MeshError::Malformed);
        }
        proof {
            assert(is_element_table(vt, *symbol, seq![1usize, 2usize, 3usize]));
            assert(is_element_table(et, *symbol, seq![0usize, 2usize, 3usize]));
            assert(is_element_table(ft, *symbol, seq![0usize, 1usize, 3usize]));
            assert(is_element_table(ct, *symbol, seq![0usize, 1usize, 2usize]));
        }
        assert(rectangular(vt, 4) && rectangular(et, 4) && rectangular(ft, 4) && rectangular(ct, 4));
        assert forall|c: int| 0 <= c < face_table@.len() implies 2 < (#[trigger] face_table@[c])@.len()
            && 3 < face_table@[c]@.len() by {
            assert(ft[c].len() == 4);
        }
        assert forall|c: int| 0 <= c < edge_table@.len() implies 0 < (#[trigger] edge_table@[c])@.len()
            && 1 < edge_table@[c]@.len() by {
            assert(et[c].len() == 4);
        }

        // the faces around the first edge, and the edges around the first face
        let first_edge_faces = match rotation_orbit(&face_table, 2, 3) {
            Some(list) => list,
            None => { return Err(MeshError::Malformed); },
        };
        let first_face_edges = match rotation_orbit(&edge_table, 0, 1) {
            Some(list) => list,
            None => { return Err(MeshError::Malformed); },
        };

        // the faces of the first cell
        let face_steps = first_columns(&face_table, 3);
        assert(in_range(rows_of(&face_steps))) by {
            assert forall|c: int, g: int|
                0 <= c < rows_of(&face_steps).len() && 0 <= g < rows_of(&face_steps)[c].len() implies (
            #[trigger] rows_of(&face_steps)[c][g]) < rows_of(&face_steps).len() by {
                assert(face_steps@[c]@ == face_table@[c]@.take(3));
                assert(rows_of(&face_steps)[c][g] == ft[c][g]);
            }
        }
        let first_cell_tree = bfs_tree(&face_steps, 0);
        let first_cell_faces = IndexList::from_vec(&first_cell_tree.order);
        let first_cell_total = first_cell_faces.len();
        assert(list_below(first_cell_faces@, face_table@.len() as int));
        assert(first_cell_faces@.len() == first_cell_total);
        proof {
            assert(rows_of(&face_steps) =~= columns(ft, 3));
            assert(is_bfs_tree(
                columns(ft, 3),
                0,
                first_cell_faces@,
                first_cell_tree.link@,
                first_cell_tree.slot@,
            ));
            assert(is_orbit(ft, 2, 3, first_edge_faces@));
            assert(is_orbit(et, 0, 1, first_face_edges@));
        }

        let edge_tree = bfs_tree(&edge_table, 0);
        let face_tree = bfs_tree(&face_table, 0);
        let cell_tree = bfs_tree(&cell_table, 0);
        proof {
            lemma_bfs_tree_shape(et, 4, edge_tree.order@, edge_tree.link@, edge_tree.slot@);
            lemma_bfs_tree_shape(ft, 4, face_tree.order@, face_tree.link@, face_tree.slot@);
            lemma_bfs_tree_shape(ct, 4, cell_tree.order@, cell_tree.link@, cell_tree.slot@);
            assert(links_fit(edge_tree.link@, vt)) by {
                assert forall|k: int, c: int|
                    1 <= k < edge_tree.link@.len() && 0 <= c < vt.len() implies (
                #[trigger] edge_tree.link@[k]).1 < (#[trigger] vt[c]).len() by {}
            }
            assert(links_fit(edge_tree.link@, ft)) by {
                assert forall|k: int, c: int|
                    1 <= k < edge_tree.link@.len() && 0 <= c < ft.len() implies (
                #[trigger] edge_tree.link@[k]).1 < (#[trigger] ft[c]).len() by {}
            }
            assert(links_fit(face_tree.link@, et)) by {
                assert forall|k: int, c: int|
                    1 <= k < face_tree.link@.len() && 0 <= c < et.len() implies (
                #[trigger] face_tree.link@[k]).1 < (#[trigger] et[c]).len() by {}
            }
            assert(links_fit(cell_tree.link@, ft)) by {
                assert forall|k: int, c: int|
                    1 <= k < cell_tree.link@.len() && 0 <= c < ft.len() implies (
                #[trigger] cell_tree.link@[k]).1 < (#[trigger] ft[c]).len() by {}
            }
        }
        let heads = carry_index(&edge_tree, &vertex_table, 0);
        let tails = carry_index(&edge_tree, &vertex_table, 1);
        let edge_faces = carry_list(&edge_tree, &face_table, &first_edge_faces);
        let face_edges = carry_list(&face_tree, &edge_table, &first_face_edges);
        let cell_faces = carry_list(&cell_tree, &face_table, &first_cell_faces);
        let vertex_tree = bfs_tree(&vertex_table, 0);
        let cell_mirrors = paths_along(&cell_table, 0, &cell_tree);
        let vertex_mirrors = paths_along(&vertex_table, 0, &vertex_tree);

        let vertex_count = vertex_table.len();
        let edge_count = edge_table.len();
        let face_count = face_table.len();
        let cell_count = cell_table.len();

        let mut edges: Vec<Edge> = Vec::new();
        let mut e: usize = 0;
        while e < edge_count
            invariant
                edge_count == heads@.len(),
                edge_count == tails@.len(),
                edge_count == edge_faces@.len(),
                e <= edge_count,
                edges@.len() == e,
                list_below(heads@, vertex_count as int),
                list_below(tails@, vertex_count as int),
                forall|k: int|
                    0 <= k < e ==> (#[trigger] edges@[k]).hd_vertex < vertex_count && edges@[k].tl_vertex
                        < vertex_count,
                forall|k: int|
                    0 <= k < e ==> (#[trigger] edges@[k]).hd_vertex == heads@[k]
                        && edges@[k].tl_vertex == tails@[k] && edges@[k].faces@
                        == edge_faces@[k]@,
            decreases edge_count - e,
        {
            assert(heads@[e as int] < vertex_count && tails@[e as int] < vertex_count);
            edges.push(
                Edge { hd_vertex: heads[e], tl_vertex: tails[e], faces: edge_faces[e].duplicate() },
            );
            e += 1;
        }

        let mut faces: Vec<Face> = Vec::new();
        let mut f: usize = 0;
        while f < face_count
            invariant
                face_count == face_edges@.len(),
                f <= face_count,
                faces@.len() == f,
                forall|u: int|
                    0 <= u < face_edges@.len() ==> list_below(
                        (#[trigger] face_edges@[u])@,
                        edge_count as int,
                    ),
                forall|k: int|
                    0 <= k < f ==> list_below((#[trigger] faces@[k]).edges@, edge_count as int),
                forall|k: int| 0 <= k < f ==> (#[trigger] faces@[k]).edges@ == face_edges@[k]@,
                forall|k: int|
                    0 <= k < f ==> (#[trigger] faces@[k]).hd_cell == NO_CELL && faces@[k].tl_cell
                        == NO_CELL,
            decreases face_count - f,
        {
            faces.push(Face { hd_cell: NO_CELL, tl_cell: NO_CELL, edges: face_edges[f].duplicate() });
            f += 1;
        }

        let mut cells: Vec<Cell> = Vec::new();
        let mut c: usize = 0;
        while c < cell_count
            invariant
                cell_count == cell_faces@.len(),
                cell_count == cell_mirrors@.len(),
                c <= cell_count,
                cells@.len() == c,
                forall|u: int|
                    0 <= u < cell_faces@.len() ==> list_below(
                        (#[trigger] cell_faces@[u])@,
                        face_count as int,
                    ),
                forall|k: int|
                    0 <= k < c ==> list_below((#[trigger] cells@[k]).faces@, face_count as int),
                forall|k: int|
                    0 <= k < c ==> (#[trigger] cells@[k]).faces@ == cell_faces@[k]@
                        && cells@[k].mirrors@ == cell_mirrors@[k]@,
            decreases cell_count - c,
        {
            let mirrors = cell_mirrors[c].clone();
            assert(mirrors@ =~= cell_mirrors@[c as int]@);
            cells.push(Cell { faces: cell_faces[c].duplicate(), mirrors });
            c += 1;
        }

        proof {
            assert forall|k: int| 0 <= k < cell_count implies (
            #[trigger] cells@[k]).faces@.no_duplicates() by {
                lemma_cell_faces_distinct(
                    ft,
                    ct,
                    (cell_tree.order@, cell_tree.link@, cell_tree.slot@),
                    lists_view(cell_faces@),
                    first_cell_faces@,
                    k,
                );
            }
        }

        // tell each face the cells it lies on
        let mut c: usize = 0;
        while c < cell_count
            invariant
                cells@.len() == cell_count,
                faces@.len() == face_count,
                c <= cell_count,
                forall|k: int| 0 <= k < cell_count ==> (#[trigger] cells@[k]).faces@.no_duplicates(),
                forall|k: int|
                    0 <= k < face_count && (#[trigger] faces@[k]).tl_cell != NO_CELL
                        ==> faces@[k].hd_cell < faces@[k].tl_cell,
                forall|k: int|
                    0 <= k < face_count && (#[trigger] faces@[k]).hd_cell != NO_CELL
                        ==> faces@[k].hd_cell < c,
                forall|k: usize|
                    k < face_count ==> #[trigger] face_told(cells@, faces@[k as int], k, c as int),
                forall|k: int|
                    0 <= k < cell_count ==> list_below((#[trigger] cells@[k]).faces@, face_count as int),
                forall|k: int|
                    0 <= k < face_count ==> list_below(
                        (#[trigger] faces@[k]).edges@,
                        edge_count as int,
                    ),
                forall|k: int|
                    0 <= k < face_count ==> (#[trigger] faces@[k]).edges@ == face_edges@[k]@,
            decreases cell_count - c,
        {
            let count = cells[c].faces.len();
            let mut i: usize = 0;
            proof {
                assert forall|k: usize| k < face_count implies #[trigger] face_being_told(
                    cells@,
                    faces@[k as int],
                    k,
                    c as int,
                    0,
                ) by {
                    assert(face_told(cells@, faces@[k as int], k, c as int));
                }
            }
            while i < count
                invariant
                    forall|k: usize|
                        k < face_count ==> #[trigger] face_being_told(
                            cells@,
                            faces@[k as int],
                            k,
                            c as int,
                            i as int,
                        ),
                    cells@.len() == cell_count,
                    faces@.len() == face_count,
                    c < cell_count,
                    count == cells@[c as int].faces@.len(),
                    i <= count,
                    forall|k: int|
                        0 <= k < cell_count ==> (#[trigger] cells@[k]).faces@.no_duplicates(),
                    forall|k: int|
                        0 <= k < face_count && (#[trigger] faces@[k]).tl_cell != NO_CELL
                            ==> faces@[k].hd_cell < faces@[k].tl_cell,
                    forall|k: int|
                        0 <= k < face_count && (#[trigger] faces@[k]).hd_cell != NO_CELL
                            ==> faces@[k].hd_cell < c || (faces@[k].hd_cell == c && occurs_before(
                            cells@[c as int].faces@,
                            i as int,
                            k as usize,
                        )),
                    forall|k: int|
                        0 <= k < cell_count ==> list_below(
                            (#[trigger] cells@[k]).faces@,
                            face_count as int,
                        ),
                    forall|k: int|
                        0 <= k < face_count ==> list_below(
                            (#[trigger] faces@[k]).edges@,
                            edge_count as int,
                        ),
                    forall|k: int|
                        0 <= k < face_count ==> (#[trigger] faces@[k]).edges@ == face_edges@[k]@,
                decreases count - i,
            {
                let j = cells[c].faces.get(i);
                assert(cells@[c as int].faces@[i as int] < face_count);
                let ghost faces_before = faces@;
                if faces[j].hd_cell == NO_CELL {
                    faces[j].hd_cell = c;
                } else {
                    proof {
                        if faces@[j as int].hd_cell == c {
                            let earlier = choose|earlier: int|
                                0 <= earlier < i && earlier < cells@[c as int].faces@.len()
                                    && #[trigger] cells@[c as int].faces@[earlier] == j;
                            assert(cells@[c as int].faces@[earlier] == cells@[c as int].faces@[i as int]);
                        }
                    }
                    faces[j].tl_cell = c;
                }
                proof {
                    assert forall|k: usize| k < face_count implies #[trigger] face_being_told(
                        cells@,
                        faces@[k as int],
                        k,
                        c as int,
                        i + 1,
                    ) by {
                        assert(face_being_told(cells@, faces_before[k as int], k, c as int, i as int));
                        if k == j {
                            lemma_face_step(
                                cells@,
                                faces_before[k as int],
                                faces@[k as int],
                                k,
                                c as int,
                                i as int,
                            );
                        } else {
                            assert(faces@[k as int] == faces_before[k as int]);
                            lemma_face_other(cells@, faces@[k as int], k, c as int, i as int);
                        }
                    }
                    assert forall|k: int|
                        0 <= k < face_count && (#[trigger] faces@[k]).hd_cell
                            != NO_CELL implies faces@[k].hd_cell < c || (faces@[k].hd_cell == c
                        && occurs_before(cells@[c as int].faces@, i + 1, k as usize)) by {
                        if k == j {
                            if faces_before[k].hd_cell == NO_CELL {
                                assert(cells@[c as int].faces@[i as int] == k as usize);
                            }
                        }
                        if faces_before[k].hd_cell != NO_CELL && faces_before[k].hd_cell == c {
                            assert(occurs_before(cells@[c as int].faces@, i as int, k as usize));
                            let earlier = choose|earlier: int|
                                0 <= earlier < i && earlier < cells@[c as int].faces@.len()
                                    && #[trigger] cells@[c as int].faces@[earlier] == k as usize;
                            assert(cells@[c as int].faces@[earlier] == k as usize);
                        }
                    }
                }
                i += 1;
            }
            proof {
                assert forall|k: usize| k < face_count implies #[trigger] face_told(
                    cells@,
                    faces@[k as int],
                    k,
                    c + 1,
                ) by {
                    assert(face_being_told(cells@, faces@[k as int], k, c as int, count as int));
                    lemma_face_done(cells@, faces@[k as int], k, c as int);
                }
            }
            c += 1;
        }

        // tell each vertex the cells it lies on
        let mut vertex_data: Vec<VertexData> = Vec::new();
        let mut v: usize = 0;
        while v < vertex_count
            invariant
                v <= vertex_count,
                vertex_data@.len() == v,
                forall|k: int| 0 <= k < v ==> (#[trigger] vertex_data@[k]).cells@.len() == 0,
            decreases vertex_count - v,
        {
            vertex_data.push(VertexData { cells: IndexList::new() });
            v += 1;
        }
        let ghost cells_now = cells@;
        let ghost faces_now = faces@;
        let ghost edges_now = edges@;
        let mut c: usize = 0;
        while c < cell_count
            invariant
                cells@.len() == cell_count,
                faces@.len() == face_count,
                edges@.len() == edge_count,
                vertex_data@.len() == vertex_count,
                c <= cell_count,
                forall|k: int|
                    0 <= k < cell_count ==> list_below((#[trigger] cells@[k]).faces@, face_count as int),
                forall|k: int|
                    0 <= k < face_count ==> list_below(
                        (#[trigger] faces@[k]).edges@,
                        edge_count as int,
                    ),
                forall|k: int|
                    0 <= k < edge_count ==> (#[trigger] edges@[k]).hd_vertex < vertex_count
                        && edges@[k].tl_vertex < vertex_count,
                cells@ == cells_now,
                faces@ == faces_now,
                edges@ == edges_now,
                forall|u: int|
                    0 <= u < vertex_count ==> ascending((#[trigger] vertex_data@[u]).cells@),
                forall|u: int, k: int|
                    0 <= u < vertex_count && 0 <= k < vertex_data@[u].cells@.len() ==> (
                    #[trigger] vertex_data@[u].cells@[k]) < c && touches(
                        cells_now,
                        faces_now,
                        edges_now,
                        vertex_data@[u].cells@[k] as int,
                        u,
                    ),
                forall|u: usize|
                    u < c ==> #[trigger] cell_told(
                        cells_now,
                        faces_now,
                        edges_now,
                        vertex_data@,
                        u,
                    ),
            decreases cell_count - c,
        {
            let face_total = cells[c].faces.len();
            let mut i: usize = 0;
            while i < face_total
                invariant
                    cells@.len() == cell_count,
                    faces@.len() == face_count,
                    edges@.len() == edge_count,
                    vertex_data@.len() == vertex_count,
                    c < cell_count,
                    face_total == cells@[c as int].faces@.len(),
                    i <= face_total,
                    forall|k: int|
                        0 <= k < cell_count ==> list_below(
                            (#[trigger] cells@[k]).faces@,
                            face_count as int,
                        ),
                    forall|k: int|
                        0 <= k < face_count ==> list_below(
                            (#[trigger] faces@[k]).edges@,
                            edge_count as int,
                        ),
                    forall|k: int|
                        0 <= k < edge_count ==> (#[trigger] edges@[k]).hd_vertex < vertex_count
                            && edges@[k].tl_vertex < vertex_count,
                    cells@ == cells_now,
                    faces@ == faces_now,
                    edges@ == edges_now,
                    forall|u: int|
                        0 <= u < vertex_count ==> ascending((#[trigger] vertex_data@[u]).cells@),
                    forall|u: int, k: int|
                        0 <= u < vertex_count && 0 <= k < vertex_data@[u].cells@.len() ==> (
                        #[trigger] vertex_data@[u].cells@[k]) < c + 1 && touches(
                            cells_now,
                            faces_now,
                            edges_now,
                            vertex_data@[u].cells@[k] as int,
                            u,
                        ),
                    forall|u: usize|
                        u < c ==> #[trigger] cell_told(
                            cells_now,
                            faces_now,
                            edges_now,
                            vertex_data@,
                            u,
                        ),
                    corners_told(cells_now, faces_now, edges_now, vertex_data@, c, i as int, 0),
                decreases face_total - i,
            {
                let face_idx = cells[c].faces.get(i);
                assert(cells@[c as int].faces@[i as int] < face_count);
                let edge_total = faces[face_idx].edges.len();
                let mut j: usize = 0;
                while j < edge_total
                    invariant
                        faces@.len() == face_count,
                        edges@.len() == edge_count,
                        vertex_data@.len() == vertex_count,
                        face_idx < face_count,
                        edge_total == faces@[face_idx as int].edges@.len(),
                        j <= edge_total,
                        list_below(faces@[face_idx as int].edges@, edge_count as int),
                        forall|k: int|
                            0 <= k < edge_count ==> (#[trigger] edges@[k]).hd_vertex < vertex_count
                                && edges@[k].tl_vertex < vertex_count,
                        c < cell_count,
                        cells@.len() == cell_count,
                        i < cells@[c as int].faces@.len(),
                        face_idx == cells@[c as int].faces@[i as int],
                        cells@ == cells_now,
                        faces@ == faces_now,
                        edges@ == edges_now,
                        forall|u: int|
                            0 <= u < vertex_count ==> ascending((#[trigger] vertex_data@[u]).cells@),
                        forall|u: int, k: int|
                            0 <= u < vertex_count && 0 <= k < vertex_data@[u].cells@.len() ==> (
                            #[trigger] vertex_data@[u].cells@[k]) < c + 1 && touches(
                                cells_now,
                                faces_now,
                                edges_now,
                                vertex_data@[u].cells@[k] as int,
                                u,
                            ),
                        forall|u: usize|
                            u < c ==> #[trigger] cell_told(
                                cells_now,
                                faces_now,
                                edges_now,
                                vertex_data@,
                                u,
                            ),
                        corners_told(
                            cells_now,
                            faces_now,
                            edges_now,
                            vertex_data@,
                            c,
                            i as int,
                            j as int,
                        ),
                    decreases edge_total - j,
                {
                    let edge_idx = faces[face_idx].edges.get(j);
                    assert(faces@[face_idx as int].edges@[j as int] < edge_count);
                    let hd = edges[edge_idx].hd_vertex;
                    let tl = edges[edge_idx].tl_vertex;
                    proof {
                        assert(corner_at(
                            cells_now,
                            faces_now,
                            edges_now,
                            c as int,
                            i as int,
                            j as int,
                            hd as int,
                        ));
                        assert(corner_at(
                            cells_now,
                            faces_now,
                            edges_now,
                            c as int,
                            i as int,
                            j as int,
                            tl as int,
                        ));
                    }
                    let ghost told_before = vertex_data@;
                    if !vertex_data[hd].cells.contains(c) {
                        vertex_data[hd].cells.push(c);
                    }
                    let ghost told_between = vertex_data@;
                    if !vertex_data[tl].cells.contains(c) {
                        vertex_data[tl].cells.push(c);
                    }
                    proof {
                        lemma_told_step(told_before, told_between, hd as int, c);
                        lemma_told_step(told_between, vertex_data@, tl as int, c);
                        assert(told_more(told_before, vertex_data@));
                        assert(lists_cell(vertex_data@, hd as int, c));
                        assert forall|u: usize| u < c implies #[trigger] cell_told(
                            cells_now,
                            faces_now,
                            edges_now,
                            vertex_data@,
                            u,
                        ) by {
                            lemma_told_kept(
                                cells_now,
                                faces_now,
                                edges_now,
                                told_before,
                                vertex_data@,
                                u,
                                0,
                                0,
                            );
                        }
                        lemma_told_kept(
                            cells_now,
                            faces_now,
                            edges_now,
                            told_before,
                            vertex_data@,
                            c,
                            i as int,
                            j as int,
                        );
                    }
                    j += 1;
                }
                i += 1;
            }
            c += 1;
        }

        let mesh = Mesh { vertex_mirrors, vertex_data, edges, faces, cells };
        assert(mesh.in_order());
        proof {
            assert forall|c: int| 0 <= c < ct.len() implies (#[trigger] mesh.cells@[c]).faces@
                == lists_view(cell_faces@)[c] && mesh.cells@[c].mirrors@ == rows_of(
                &cell_mirrors,
            )[c] by {}
            lemma_laid_out(
                &mesh,
                *symbol,
                (vt, et, ft, ct),
                (
                    (vertex_tree.order@, vertex_tree.link@, vertex_tree.slot@),
                    (edge_tree.order@, edge_tree.link@, edge_tree.slot@),
                    (face_tree.order@, face_tree.link@, face_tree.slot@),
                    (cell_tree.order@, cell_tree.link@, cell_tree.slot@),
                ),
                heads@,
                tails@,
                lists_view(edge_faces@),
                lists_view(face_edges@),
                lists_view(cell_faces@),
                first_edge_faces@,
                first_face_edges@,
                first_cell_faces@,
                rows_of(&mesh.vertex_mirrors),
                rows_of(&cell_mirrors),
            );
        }
        if mesh.validate() && mesh.check_closed() && mesh.check_mirrors() {
            Ok(mesh)
        } else {
            proof {
                assert(mesh.is_open_polytope(*symbol));
            }
            Err(MeshError::Malformed)
        }
    }
}


/// A plane by which a cell is clipped: the plane of the cell `cell`,
/// through the vertex `vertex`.
#[derive(Clone, Copy, PartialEq, Eq, Structural, Debug)]
pub struct ClipPlane {
    pub vertex: usize,
    pub cell: usize,
}

/// The cells around an edge, as far as the first `upto` faces of the edge
/// show them: both cells of the first face, and of every further face its
/// head cell if that is new, else its tail cell if that is new.
pub open spec fn cells_around(mesh: &Mesh, edge_idx: int, upto: int) -> Seq<usize>
    decreases upto,
{
    if upto <= 0 {
        Seq::empty()
    } else {
        let face = mesh.faces@[mesh.edges@[edge_idx].faces@[upto - 1] as int];
        if upto == 1 {
            seq![face.hd_cell, face.tl_cell]
        } else {
            let before = cells_around(mesh, edge_idx, upto - 1);
            if !before.contains(face.hd_cell) {
                before.push(face.hd_cell)
            } else if !before.contains(face.tl_cell) {
                before.push(face.tl_cell)
            } else {
                before
            }
        }
    }
}

impl Mesh {
    /// Every face separates two cells of the mesh.
    pub open spec fn closed(&self) -> bool {
        forall|f: int|
            0 <= f < self.faces@.len() ==> (#[trigger] self.faces@[f]).hd_cell < self.cells@.len()
                && self.faces@[f].tl_cell < self.cells@.len()
    }

    /// Whether every face separates two cells of the mesh.
    pub fn check_closed(&self) -> (ok: bool)
        ensures
            ok == self.closed(),
    {
        let mut f: usize = 0;
        while f < self.faces.len()
            invariant
                f <= self.faces@.len(),
                forall|k: int|
                    0 <= k < f ==> (#[trigger] self.faces@[k]).hd_cell < self.cells@.len()
                        && self.faces@[k].tl_cell < self.cells@.len(),
            decreases self.faces@.len() - f,
        {
            if self.faces[f].hd_cell >= self.cells.len() || self.faces[f].tl_cell >= self.cells.len() {
                return false;
            }
            f += 1;
        }
        true
    }

    /// The planes by which a cell that has entered the cell `cell_idx` is
    /// clipped: for every face of the cell, in their order, the plane of the
    /// cell on the other side of the face, through the vertex that stands
    /// for the face.
    pub fn clip_planes(&self, cell_idx: usize) -> (planes: Vec<ClipPlane>)
        requires
            self.in_range(),
            self.closed(),
            cell_idx < self.cells@.len(),
        ensures
            planes@.len() == self.cells@[cell_idx as int].faces@.len(),
            planes@.len() >= 1,
            forall|i: int|
                0 <= i < planes@.len() ==> {
                    let face_idx = self.cells@[cell_idx as int].faces@[i] as int;
                    let face = self.faces@[face_idx];
                    &&& (#[trigger] planes@[i]).vertex == self.edges@[face.edges@[0] as int].hd_vertex
                    &&& planes@[i].cell == if face.hd_cell == cell_idx {
                        face.tl_cell
                    } else {
                        face.hd_cell
                    }
                    &&& planes@[i].vertex < self.vertex_data@.len()
                    &&& planes@[i].cell < self.cells@.len()
                },
    {
        let mut planes: Vec<ClipPlane> = Vec::new();
        let total = self.cells[cell_idx].faces.len();
        let mut i: usize = 0;
        while i < total
            invariant
                self.in_range(),
                self.closed(),
                cell_idx < self.cells@.len(),
                total == self.cells@[cell_idx as int].faces@.len(),
                i <= total,
                planes@.len() == i,
                forall|k: int|
                    0 <= k < i ==> {
                        let face_idx = self.cells@[cell_idx as int].faces@[k] as int;
                        let face = self.faces@[face_idx];
                        &&& (#[trigger] planes@[k]).vertex
                            == self.edges@[face.edges@[0] as int].hd_vertex
                        &&& planes@[k].cell == if face.hd_cell == cell_idx {
                            face.tl_cell
                        } else {
                            face.hd_cell
                        }
                        &&& planes@[k].vertex < self.vertex_data@.len()
                        &&& planes@[k].cell < self.cells@.len()
                    },
            decreases total - i,
        {
            let face_idx = self.cells[cell_idx].faces.get(i);
            assert(self.cells@[cell_idx as int].faces@[i as int] < self.faces@.len());
            let vertex = self.face_representative_vertex(face_idx);
            let cell = self.adjacent_cell(face_idx, cell_idx);
            planes.push(ClipPlane { vertex, cell });
            i += 1;
        }
        planes
    }

    /// The cells around an edge, found by way of the faces around it.
    pub fn edge_cells(&self, edge_idx: usize) -> (cells: Vec<usize>)
        requires
            self.in_range(),
            edge_idx < self.edges@.len(),
        ensures
            cells@ == cells_around(
                self,
                edge_idx as int,
                self.edges@[edge_idx as int].faces@.len() as int,
            ),
    {
        let mut cells: Vec<usize> = Vec::new();
        let total = self.edges[edge_idx].faces.len();
        let mut k: usize = 0;
        while k < total
            invariant
                self.in_range(),
                edge_idx < self.edges@.len(),
                total == self.edges@[edge_idx as int].faces@.len(),
                k <= total,
                cells@ == cells_around(self, edge_idx as int, k as int),
            decreases total - k,
        {
            let face_idx = self.edges[edge_idx].faces.get(k);
            assert(self.edges@[edge_idx as int].faces@[k as int] < self.faces@.len());
            let face = &self.faces[face_idx];
            if k == 0 {
                cells.push(face.hd_cell);
                cells.push(face.tl_cell);
                assert(cells@ =~= seq![face.hd_cell, face.tl_cell]);
            } else if !contains(&cells, face.hd_cell) {
                cells.push(face.hd_cell);
            } else if !contains(&cells, face.tl_cell) {
                cells.push(face.tl_cell);
            }
            k += 1;
        }
        cells
    }
}

} // verus!
