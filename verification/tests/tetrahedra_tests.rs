use rigid4d::mesh::{ClipPlane, Mesh};
use rigid4d::select::contains;
use rigid4d::tetrahedra::{
    get_face_vertex_indices, lattice_tetrahedra, position_from, Corner, LatticePoint,
    TetrahedronMesh,
};

#[test]
fn the_vertices_of_a_face_go_around_it() {
    let mesh = Mesh::from_schlafli_symbol(&[4, 3, 3]).unwrap();
    for face_idx in 0..mesh.faces.len() {
        let around = get_face_vertex_indices(&mesh, face_idx);
        assert_eq!(around.len(), 4);
        let mut sorted = around.clone();
        sorted.sort();
        sorted.dedup();
        assert_eq!(sorted.len(), 4);
        // neighbours in the list are joined by an edge of the face
        for k in 0..4 {
            let (v, w) = (around[k], around[(k + 1) % 4]);
            let joined = mesh.faces[face_idx].edges.to_vec().into_iter().any(|e| {
                let edge = &mesh.edges[e];
                (edge.hd_vertex, edge.tl_vertex) == (v, w) || (edge.hd_vertex, edge.tl_vertex) == (w, v)
            });
            assert!(joined);
        }
    }
}

#[test]
fn a_cube_is_cut_into_six_tetrahedra() {
    let mesh = Mesh::from_schlafli_symbol(&[4, 3, 3]).unwrap();
    let cut = TetrahedronMesh::tetrahedralize_cell(&mesh, 0);
    // three faces do not hold the apex, and each is a fan of two triangles
    assert_eq!(cut.indices.len(), 6 * 4);
    assert_eq!(cut.vertices.len(), 8);
    let apex = mesh.cell_representative_vertex(0);
    for tetrahedron in cut.indices.chunks(4) {
        assert_eq!(cut.vertices[tetrahedron[0] as usize], Corner { cell: 0, vertex: apex });
        let mut corners: Vec<u32> = tetrahedron.to_vec();
        corners.sort();
        corners.dedup();
        assert_eq!(corners.len(), 4);
    }
}

#[test]
fn the_tetrahedra_of_a_mesh_are_those_of_its_cells() {
    let mesh = Mesh::from_schlafli_symbol(&[4, 3, 3]).unwrap();
    let cut = TetrahedronMesh::from_mesh(&mesh).unwrap();
    assert_eq!(cut.vertices.len(), 8 * 8);
    assert_eq!(cut.indices.len(), 8 * 6 * 4);
    for (k, corner) in cut.vertices.iter().enumerate() {
        assert_eq!(corner.cell, k / 8);
    }
    let second = TetrahedronMesh::tetrahedralize_cell(&mesh, 1);
    for k in 0..24 {
        assert_eq!(cut.indices[24 + k], second.indices[k] + 8);
    }

    let simplex = Mesh::from_schlafli_symbol(&[3, 3, 3]).unwrap();
    let cut = TetrahedronMesh::from_mesh(&simplex).unwrap();
    // every cell is one tetrahedron already
    assert_eq!(cut.indices.len(), 5 * 4);
    assert_eq!(cut.vertices.len(), 5 * 4);
}

#[test]
fn appended_tetrahedra_keep_their_vertices() {
    let mut first = TetrahedronMesh {
        vertices: vec![Corner { cell: 0, vertex: 5 }; 4],
        indices: vec![0, 1, 2, 3],
    };
    let second = TetrahedronMesh {
        vertices: vec![Corner { cell: 1, vertex: 6 }; 5],
        indices: vec![4, 3, 2, 1, 0, 1, 2, 3],
    };
    assert!(first.append(second));
    assert_eq!(first.vertices.len(), 9);
    assert_eq!(first.vertices[4], Corner { cell: 1, vertex: 6 });
    assert_eq!(first.indices, vec![0, 1, 2, 3, 8, 7, 6, 5, 4, 5, 6, 7]);
    let mut empty = TetrahedronMesh::empty();
    assert!(empty.append(first));
    assert_eq!(empty.indices.len(), 12);
}

#[test]
fn a_tetrahedron_is_cut_into_the_cube_of_the_frequency() {
    assert_eq!(lattice_tetrahedra(0), Vec::new());
    assert_eq!(lattice_tetrahedra(1), vec![(0, 0, 0), (1, 0, 0), (0, 1, 0), (0, 0, 1)]);
    for frequency in 1..6 {
        let corners = lattice_tetrahedra(frequency);
        assert_eq!(corners.len(), 4 * frequency * frequency * frequency);
        for (i, j, k) in corners.iter() {
            assert!(i + j + k <= frequency);
        }
    }
    let two = lattice_tetrahedra(2);
    // the octahedron in the middle
    assert_eq!(&two[4..8], &[(1, 0, 0), (0, 1, 0), (0, 0, 1), (1, 0, 1)]);
    assert_eq!(&two[20..24], &[(0, 0, 1), (1, 0, 1), (0, 1, 1), (0, 0, 2)]);
}

#[test]
fn the_points_of_a_subdivision_are_listed_once() {
    let shape = TetrahedronMesh { vertices: Vec::new(), indices: vec![0, 1, 2, 3, 3, 2, 1, 0] };
    let cut = shape.subdivide(2).unwrap();
    assert_eq!(cut.frequency, 2);
    // ten points on the lattice of each of the two tetrahedra
    assert_eq!(cut.points.len(), 20);
    assert_eq!(cut.indices.len(), 2 * 8 * 4);
    assert_eq!(cut.points[0], LatticePoint { tetrahedron: 0, i: 0, j: 0, k: 0 });
    assert_eq!(cut.points[10], LatticePoint { tetrahedron: 1, i: 0, j: 0, k: 0 });
    assert_eq!(&cut.indices[0..4], &[0, 1, 2, 3]);
    assert_eq!(&cut.indices[32..36], &[10, 11, 12, 13]);
    assert_eq!(position_from(&cut.points, 10, cut.points[12]), Some(12));
    assert_eq!(position_from(&cut.points, 13, cut.points[12]), None);
    assert_eq!(position_from(&cut.points, 0, cut.points[12]), Some(12));
    let whole = shape.subdivide(1).unwrap();
    assert_eq!(whole.indices, vec![0, 1, 2, 3, 4, 5, 6, 7]);
    assert!(shape.subdivide(0).unwrap().indices.is_empty());
    assert!(contains(&vec![1, 2, 3], 2));
    assert!(!contains(&vec![1, 2, 3], 4));
}

#[test]
fn a_cell_is_clipped_by_its_neighbours() {
    let mesh = Mesh::from_schlafli_symbol(&[4, 3, 3]).unwrap();
    assert!(mesh.check_closed());
    for cell_idx in 0..mesh.cells.len() {
        let planes = mesh.clip_planes(cell_idx);
        assert_eq!(planes.len(), 6);
        let mut neighbours: Vec<usize> = planes.iter().map(|p| p.cell).collect();
        neighbours.sort();
        neighbours.dedup();
        assert_eq!(neighbours.len(), 6);
        assert!(!neighbours.contains(&cell_idx));
        for (i, plane) in planes.iter().enumerate() {
            let face = mesh.cells[cell_idx].faces.get(i);
            assert_eq!(
                *plane,
                ClipPlane {
                    vertex: mesh.face_representative_vertex(face),
                    cell: mesh.adjacent_cell(face, cell_idx)
                }
            );
        }
    }
}

#[test]
fn three_cells_meet_at_an_edge_of_the_tesseract() {
    let mesh = Mesh::from_schlafli_symbol(&[4, 3, 3]).unwrap();
    for edge_idx in 0..mesh.edges.len() {
        let cells = mesh.edge_cells(edge_idx);
        assert_eq!(cells.len(), 3);
        let first = &mesh.faces[mesh.edges[edge_idx].faces.get(0)];
        assert_eq!(cells[0], first.hd_cell);
        assert_eq!(cells[1], first.tl_cell);
        assert!(cells[2] != cells[0] && cells[2] != cells[1]);
    }
}

#[test]
fn the_indices_of_a_subdivision_name_the_corners_of_the_lattice() {
    let shape = TetrahedronMesh { vertices: Vec::new(), indices: vec![0, 1, 2, 3, 3, 2, 1, 0] };
    for frequency in 1..5 {
        let corners = lattice_tetrahedra(frequency);
        let cut = shape.subdivide(frequency).unwrap();
        assert_eq!(cut.indices.len(), 2 * corners.len());
        let mut highest: Option<u32> = None;
        for (n, index) in cut.indices.iter().enumerate() {
            let (i, j, k) = corners[n % corners.len()];
            let expected = LatticePoint { tetrahedron: n / corners.len(), i, j, k };
            assert_eq!(cut.points[*index as usize], expected);
            // a point is numbered when an index first names it
            match highest {
                None => assert_eq!(*index, 0),
                Some(h) => assert!(*index <= h + 1),
            }
            highest = Some(highest.map_or(*index, |h| h.max(*index)));
        }
        assert_eq!(highest.map(|h| h as usize + 1), Some(cut.points.len()));
    }
}

#[test]
fn the_vertices_of_tetrahedra_are_numbered_as_they_are_first_named() {
    let mesh = Mesh::from_schlafli_symbol(&[3, 3, 3]).unwrap();
    let all = TetrahedronMesh::from_mesh(&mesh).unwrap();
    let mut highest: Option<u32> = None;
    for index in all.indices.iter() {
        match highest {
            None => assert_eq!(*index, 0),
            Some(h) => assert!(*index <= h + 1),
        }
        highest = Some(highest.map_or(*index, |h| h.max(*index)));
    }
    assert_eq!(highest.map(|h| h as usize + 1), Some(all.vertices.len()));
    assert_eq!(all.indices.len() % 4, 0);
    assert!(all.vertices.len() <= mesh.cells.len() * mesh.vertex_data.len());
}
