use rigid4d::clip::{ClipMesh, ProcessVertexResult, Side, VertexOrigin};
use rigid4d::mesh::Mesh;

fn cube() -> ClipMesh {
    let mesh = Mesh::from_schlafli_symbol(&[4, 3, 3]).unwrap();
    ClipMesh::from_cell(&mesh, 0)
}

fn visible_edges(clip: &ClipMesh) -> usize {
    clip.edges.iter().filter(|e| e.visible).count()
}

fn visible_faces(clip: &ClipMesh) -> usize {
    clip.faces.iter().filter(|f| f.visible).count()
}

#[test]
fn a_cell_of_the_tesseract_is_copied_as_a_cube() {
    let mesh = Mesh::from_schlafli_symbol(&[4, 3, 3]).unwrap();
    let clip = ClipMesh::from_cell(&mesh, 0);
    assert_eq!(clip.vertex_count(), 8);
    assert_eq!(clip.edges.len(), 12);
    assert_eq!(clip.faces.len(), 6);
    assert_eq!(clip.to_vertices(), vec![0, 1, 2, 3, 4, 5, 6, 7]);
    for (i, face) in clip.faces.iter().enumerate() {
        let source = &mesh.faces[mesh.cells[0].faces.get(i)];
        assert!(face.visible);
        assert_eq!(face.edges.len(), 4);
        for j in 0..4 {
            let edge = &clip.edges[face.edges.get(j)];
            let mesh_edge = &mesh.edges[source.edges.get(j)];
            assert_eq!(clip.vertices[edge.hd_vertex].origin, VertexOrigin::Mesh(mesh_edge.hd_vertex));
            assert_eq!(clip.vertices[edge.tl_vertex].origin, VertexOrigin::Mesh(mesh_edge.tl_vertex));
            assert!(edge.faces.contains(i));
        }
    }
    for edge in clip.edges.iter() {
        assert!(edge.visible);
        assert_eq!(edge.faces.len(), 2);
    }
}

#[test]
fn a_plane_that_misses_the_mesh_changes_nothing() {
    let mut clip = cube();
    let result = clip.clip_by(&vec![Side::Positive; 8]);
    assert_eq!(result, ProcessVertexResult::NoneClipped);
    assert_eq!(clip.vertex_count(), 8);
    assert_eq!(visible_edges(&clip), 12);
    assert_eq!(clip.faces.len(), 6);
    assert_eq!(clip.to_vertices().len(), 8);

    let mut touching = vec![Side::Positive; 8];
    touching[3] = Side::Zero;
    assert_eq!(clip.clip_by(&touching), ProcessVertexResult::NoneClipped);
    assert_eq!(clip.to_vertices().len(), 8);
}

#[test]
fn a_plane_that_leaves_nothing_inside_hides_everything() {
    let mut clip = cube();
    let mut sides = vec![Side::Negative; 8];
    sides[2] = Side::Zero;
    let result = clip.clip_by(&sides);
    assert_eq!(result, ProcessVertexResult::AllClipped);
    assert_eq!(clip.vertex_count(), 8);
    assert_eq!(visible_edges(&clip), 0);
    assert_eq!(visible_faces(&clip), 0);
    assert_eq!(clip.to_vertices(), vec![2]);
}

#[test]
fn cutting_off_a_corner_leaves_a_triangle() {
    let mut clip = cube();
    let mut sides = vec![Side::Positive; 8];
    sides[0] = Side::Negative;
    let result = clip.clip_by(&sides);
    assert_eq!(result, ProcessVertexResult::PartiallyClipped);
    // three edges met at the corner: each is cut
    assert_eq!(clip.vertex_count(), 11);
    assert_eq!(clip.to_vertices(), vec![1, 2, 3, 4, 5, 6, 7, 8, 9, 10]);
    for v in 8..11 {
        match clip.vertices[v].origin {
            VertexOrigin::Cut(hd, tl) => assert!(hd == 0 || tl == 0),
            VertexOrigin::Mesh(_) => panic!("a cut vertex must come from a cut"),
        }
        assert_eq!(clip.vertices[v].side, Side::Zero);
    }
    // three closing edges and the triangle they bound
    assert_eq!(clip.edges.len(), 15);
    assert_eq!(visible_edges(&clip), 15);
    assert_eq!(clip.faces.len(), 7);
    assert_eq!(visible_faces(&clip), 7);
    let triangle = &clip.faces[6];
    assert_eq!(triangle.edges.to_vec(), vec![12, 13, 14]);
    for e in 12..15 {
        let edge = &clip.edges[e];
        assert!(edge.hd_vertex >= 8 && edge.tl_vertex >= 8);
        assert_eq!(edge.faces.get(1), 6);
    }
    let pentagons = clip.faces.iter().filter(|f| f.edges.len() == 5).count();
    let squares = clip.faces.iter().filter(|f| f.edges.len() == 4).count();
    assert_eq!(pentagons, 3);
    assert_eq!(squares, 3);
}

#[test]
fn cutting_through_the_middle_leaves_a_slab() {
    let mesh = Mesh::from_schlafli_symbol(&[4, 3, 3]).unwrap();
    let mut clip = ClipMesh::from_cell(&mesh, 0);
    // the four vertices of the first face lie outside, the other four inside
    let mut sides = vec![Side::Positive; 8];
    let face = &clip.faces[0];
    for j in 0..face.edges.len() {
        let edge = &clip.edges[face.edges.get(j)];
        sides[edge.hd_vertex] = Side::Negative;
        sides[edge.tl_vertex] = Side::Negative;
    }
    assert_eq!(sides.iter().filter(|s| **s == Side::Negative).count(), 4);
    let result = clip.clip_by(&sides);
    assert_eq!(result, ProcessVertexResult::PartiallyClipped);
    assert_eq!(clip.vertex_count(), 12);
    assert_eq!(clip.to_vertices().len(), 8);
    // the four edges of the face are cut away, the four that leave it are cut in two
    assert_eq!(visible_edges(&clip), 12);
    assert!(!clip.faces[0].visible);
    assert_eq!(visible_faces(&clip), 6);
    assert_eq!(clip.faces[6].edges.len(), 4);
}

#[test]
fn a_vertex_on_the_plane_is_kept_without_a_cut() {
    let mut clip = cube();
    // one edge of the cube lies on the plane, the rest inside
    let hd = clip.edges[0].hd_vertex;
    let tl = clip.edges[0].tl_vertex;
    let mut sides = vec![Side::Positive; 8];
    sides[hd] = Side::Zero;
    sides[tl] = Side::Zero;
    assert_eq!(clip.clip_by(&sides), ProcessVertexResult::NoneClipped);
    // with one vertex outside as well, the edge on the plane is cut away and closed again
    let other = (0..8).find(|v| *v != hd && *v != tl).unwrap();
    sides[other] = Side::Negative;
    assert_eq!(clip.clip_by(&sides), ProcessVertexResult::PartiallyClipped);
    assert!(!clip.edges[0].visible);
    assert!(clip.vertices[hd].visible && clip.vertices[tl].visible);
    assert!(!clip.vertices[other].visible);
}

#[test]
fn clipping_twice_cuts_the_cut() {
    let mut clip = cube();
    let mut sides = vec![Side::Positive; 8];
    sides[0] = Side::Negative;
    clip.clip_by(&sides);
    // now cut away one of the vertices that the first cut made
    let mut again = vec![Side::Positive; 11];
    again[8] = Side::Negative;
    let result = clip.clip_by(&again);
    assert_eq!(result, ProcessVertexResult::PartiallyClipped);
    assert!(!clip.vertices[0].visible);
    assert!(!clip.vertices[8].visible);
    assert_eq!(clip.faces.len(), 8);
    let kept = clip.to_vertices();
    assert!(!kept.contains(&0) && !kept.contains(&8));
    for v in 11..clip.vertex_count() {
        match clip.vertices[v].origin {
            VertexOrigin::Cut(hd, tl) => assert!(hd == 8 || tl == 8),
            VertexOrigin::Mesh(_) => panic!("a cut vertex must come from a cut"),
        }
    }
}

#[test]
fn the_steps_of_a_clip_can_be_taken_one_by_one() {
    let mut clip = cube();
    let mut sides = vec![Side::Positive; 8];
    sides[0] = Side::Negative;
    assert_eq!(clip.process_vertices(&sides), ProcessVertexResult::PartiallyClipped);
    assert!(!clip.vertices[0].visible);
    assert_eq!(clip.vertices[0].side, Side::Negative);
    assert_eq!(clip.vertices[1].side, Side::Positive);
    clip.process_edges();
    assert_eq!(clip.vertex_count(), 11);
    assert_eq!(clip.edges.len(), 12);
    // every face at the corner has an open polyline now
    let open = (0..6).filter(|f| clip.get_open_polyline(*f).is_some()).count();
    assert_eq!(open, 3);
    clip.process_faces();
    assert_eq!(clip.edges.len(), 15);
    let open = (0..7).filter(|f| clip.get_open_polyline(*f).is_some()).count();
    assert_eq!(open, 0);
}
