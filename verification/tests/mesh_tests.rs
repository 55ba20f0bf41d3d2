use rigid4d::index_list::IndexList;
use rigid4d::coxeter::EnumerationError;
use rigid4d::mesh::{
    first_columns, repeated_pair, rotation_orbit, schlafli_relations, Mesh, MeshError, NO_CELL,
};
use rigid4d::shapes::RegularSolid;

fn tesseract() -> Mesh {
    Mesh::from_schlafli_symbol(&[4, 3, 3]).unwrap()
}

#[test]
fn schlafli() {
    Mesh::from_schlafli_symbol(&[3, 3, 3]).unwrap();
    Mesh::from_schlafli_symbol(&[4, 3, 3]).unwrap();
    Mesh::from_schlafli_symbol(&[5, 3, 3]).unwrap();
    Mesh::from_schlafli_symbol(&[3, 4, 3]).unwrap();
    Mesh::from_schlafli_symbol(&[3, 3, 4]).unwrap();
    Mesh::from_schlafli_symbol(&[3, 3, 5]).unwrap();
}

#[test]
fn regular_solids_have_the_known_counts() {
    let expected = [
        (RegularSolid::FiveCell, [5, 10, 10, 5]),
        (RegularSolid::EightCell, [16, 32, 24, 8]),
        (RegularSolid::SixteenCell, [8, 24, 32, 16]),
        (RegularSolid::TwentyFourCell, [24, 96, 96, 24]),
        (RegularSolid::OneTwentyCell, [600, 1200, 720, 120]),
        (RegularSolid::SixHundredCell, [120, 720, 1200, 600]),
    ];
    for (solid, counts) in expected.iter() {
        let mesh = Mesh::from_schlafli_symbol(&solid.schlafli_symbol()).unwrap();
        assert_eq!(mesh.vertex_data.len(), counts[0]);
        assert_eq!(mesh.vertex_mirrors.len(), counts[0]);
        assert_eq!(mesh.edges.len(), counts[1]);
        assert_eq!(mesh.faces.len(), counts[2]);
        assert_eq!(mesh.cells.len(), counts[3]);
        assert!(mesh.validate());
        assert!(mesh.check_mirrors());
    }
}

#[test]
fn the_tesseract_is_made_of_cubes() {
    let mesh = tesseract();
    for cell in mesh.cells.iter() {
        assert_eq!(cell.faces.len(), 6);
    }
    for face in mesh.faces.iter() {
        assert_eq!(face.edges.len(), 4);
        assert!(face.hd_cell < 8 && face.tl_cell < 8 && face.hd_cell != face.tl_cell);
    }
    for edge in mesh.edges.iter() {
        assert_eq!(edge.faces.len(), 3);
        assert!(edge.hd_vertex != edge.tl_vertex);
    }
    for vertex in mesh.vertex_data.iter() {
        assert_eq!(vertex.cells.len(), 4);
    }
    assert_eq!(mesh.edges[0].hd_vertex, 0);
    assert_eq!(mesh.edges[0].tl_vertex, 1);
    assert!(mesh.vertex_mirrors[0].is_empty());
    assert_eq!(mesh.vertex_mirrors[1], vec![0]);
    assert!(mesh.cells[0].mirrors.is_empty());
    assert_eq!(mesh.cells[1].mirrors, vec![3]);
}

#[test]
fn a_symbol_without_a_polytope_gives_no_mesh() {
    // three squares around every edge of every cube tile space: the group is infinite
    let error = Mesh::from_schlafli_symbol(&[4, 3, 4]).err();
    assert_eq!(error, Some(MeshError::Enumeration(EnumerationError::TableFull)));
    let error = Mesh::from_schlafli_symbol(&[0, 3, 3]).err();
    assert_eq!(error, Some(MeshError::EmptyRelator));
    let error = Mesh::from_schlafli_symbol(&[3, 3, 0]).err();
    assert_eq!(error, Some(MeshError::EmptyRelator));
}

#[test]
fn validation_finds_a_broken_mesh() {
    let mut mesh = tesseract();
    assert!(mesh.validate());
    let vertex_count = mesh.vertex_data.len();
    mesh.edges[3].hd_vertex = vertex_count;
    assert!(!mesh.check_in_range());
    assert!(!mesh.validate());

    let mut mesh = tesseract();
    mesh.faces[2].hd_cell = mesh.faces[2].tl_cell;
    assert!(mesh.check_in_range());
    assert!(!mesh.check_face_cell_incidence());
    assert!(!mesh.validate());

    let mut mesh = tesseract();
    let first = mesh.faces[5].edges.get(0);
    mesh.faces[5].edges.push(first);
    assert!(!mesh.check_lists_distinct());
    assert!(!mesh.validate());

    let mut mesh = tesseract();
    mesh.edges[0].faces.remove(0);
    assert!(!mesh.check_edge_face_incidence());

    let mut mesh = tesseract();
    mesh.vertex_data[0].cells.remove(0);
    assert!(!mesh.check_vertex_cell_incidence());

    let mut mesh = tesseract();
    mesh.vertex_mirrors[1] = vec![4];
    assert!(mesh.validate());
    assert!(!mesh.check_mirrors());

    let mut mesh = tesseract();
    mesh.faces[0].tl_cell = NO_CELL;
    assert!(mesh.check_in_range());
    assert!(!mesh.validate());
}

#[test]
fn representatives_are_the_first_of_the_first() {
    let mesh = tesseract();
    for cell_idx in 0..mesh.cells.len() {
        let face = mesh.cells[cell_idx].faces.get(0);
        let edge = mesh.faces[face].edges.get(0);
        assert_eq!(mesh.cell_representative_vertex(cell_idx), mesh.edges[edge].hd_vertex);
        assert_eq!(mesh.face_representative_vertex(face), mesh.edges[edge].hd_vertex);
        assert_eq!(mesh.edge_representative_vertex(edge), mesh.edges[edge].hd_vertex);
        assert_eq!(
            mesh.edge_vertices(edge),
            (mesh.edges[edge].hd_vertex, mesh.edges[edge].tl_vertex)
        );
    }
}

#[test]
fn the_adjacent_cell_is_the_other_side_of_the_face() {
    let mesh = tesseract();
    for face_idx in 0..mesh.faces.len() {
        let face = &mesh.faces[face_idx];
        assert_eq!(mesh.adjacent_cell(face_idx, face.hd_cell), face.tl_cell);
        assert_eq!(mesh.adjacent_cell(face_idx, face.tl_cell), face.hd_cell);
    }
}

#[test]
fn relators_follow_the_symbol() {
    assert_eq!(repeated_pair(0, 1, 3), vec![0, 1, 0, 1, 0, 1]);
    assert_eq!(repeated_pair(2, 3, 0), Vec::<usize>::new());
    let words = schlafli_relations(&[5, 3, 4]);
    assert_eq!(words.len(), 10);
    assert_eq!(words[0], vec![0, 0]);
    assert_eq!(words[3], vec![3, 3]);
    assert_eq!(words[4], vec![0, 1, 0, 1, 0, 1, 0, 1, 0, 1]);
    assert_eq!(words[5], vec![1, 2, 1, 2, 1, 2]);
    assert_eq!(words[6], vec![2, 3, 2, 3, 2, 3, 2, 3]);
    assert_eq!(words[7], vec![0, 2, 0, 2]);
    assert_eq!(words[8], vec![0, 3, 0, 3]);
    assert_eq!(words[9], vec![1, 3, 1, 3]);
}

#[test]
fn a_rotation_carries_the_first_coset_around() {
    let table = vec![vec![1, 2], vec![0, 3], vec![3, 0], vec![2, 1]];
    let orbit = rotation_orbit(&table, 0, 1).unwrap();
    assert_eq!(orbit.to_vec(), vec![0, 3]);
    let stuck = vec![vec![1, 1], vec![1, 1]];
    assert!(rotation_orbit(&stuck, 0, 1).is_none());
    assert_eq!(first_columns(&table, 1), vec![vec![1], vec![0], vec![3], vec![2]]);
}

#[test]
fn index_lists_behave_as_lists() {
    let mut list = IndexList::new();
    assert_eq!(list.len(), 0);
    list.push(7);
    list.push(9);
    list.push(7);
    assert_eq!(list.len(), 3);
    assert_eq!(list.get(1), 9);
    assert!(list.contains(9));
    assert!(!list.contains(8));
    assert_eq!(list.position(7), Some(0));
    assert_eq!(list.position(8), None);
    assert!(!list.is_distinct());
    assert_eq!(list.remove(0), 7);
    assert_eq!(list.to_vec(), vec![9, 7]);
    assert!(list.is_distinct());
    let copy = list.duplicate();
    list.push(1);
    assert_eq!(copy.to_vec(), vec![9, 7]);
    assert_eq!(list.to_vec(), vec![9, 7, 1]);
    let many: Vec<usize> = (0..40).collect();
    assert_eq!(IndexList::from_vec(&many).to_vec(), many);
}

#[test]
fn the_elements_of_a_mesh_lie_where_the_mirrors_carry_the_first() {
    for symbol in [[3usize, 3, 3], [4, 3, 3], [3, 4, 3]].iter() {
        let mesh = Mesh::from_schlafli_symbol(symbol).unwrap();
        let words = schlafli_relations(symbol);
        let relations: Vec<&[usize]> = words.iter().map(|w| w.as_slice()).collect();
        let vt = rigid4d::coxeter::coset_table(4, &relations, &[1, 2, 3]).unwrap();
        let et = rigid4d::coxeter::coset_table(4, &relations, &[0, 2, 3]).unwrap();
        let ft = rigid4d::coxeter::coset_table(4, &relations, &[0, 1, 3]).unwrap();
        let ct = rigid4d::coxeter::coset_table(4, &relations, &[0, 1, 2]).unwrap();
        assert_eq!(mesh.vertex_data.len(), vt.len());
        assert_eq!(mesh.edges.len(), et.len());
        assert_eq!(mesh.faces.len(), ft.len());
        assert_eq!(mesh.cells.len(), ct.len());

        let around_edge = rotation_orbit(&ft, 2, 3).unwrap().to_vec();
        let around_face = rotation_orbit(&et, 0, 1).unwrap().to_vec();
        assert_eq!(mesh.edges[0].faces.to_vec(), around_edge);
        assert_eq!(mesh.faces[0].edges.to_vec(), around_face);
        assert_eq!((mesh.edges[0].hd_vertex, mesh.edges[0].tl_vertex), (0, 1));

        let trace = |table: &Vec<Vec<usize>>, from: usize, word: &[usize]| {
            rigid4d::table::trace_word(table, from, word).unwrap()
        };
        let edge_words = rigid4d::bfs::coset_table_bfs(&et, 0);
        for (e, edge) in mesh.edges.iter().enumerate() {
            let w = &edge_words[e];
            assert_eq!(trace(&et, 0, w), e);
            assert_eq!(edge.hd_vertex, trace(&vt, 0, w));
            assert_eq!(edge.tl_vertex, trace(&vt, 1, w));
            let moved: Vec<usize> = around_edge.iter().map(|f| trace(&ft, *f, w)).collect();
            assert_eq!(edge.faces.to_vec(), moved);
        }
        let face_words = rigid4d::bfs::coset_table_bfs(&ft, 0);
        for (f, face) in mesh.faces.iter().enumerate() {
            let w = &face_words[f];
            let moved: Vec<usize> = around_face.iter().map(|e| trace(&et, *e, w)).collect();
            assert_eq!(face.edges.to_vec(), moved);
        }
        let cell_words = rigid4d::bfs::coset_table_bfs(&ct, 0);
        let first_cell = mesh.cells[0].faces.to_vec();
        for (c, cell) in mesh.cells.iter().enumerate() {
            let w = &cell_words[c];
            assert_eq!(&cell.mirrors, w);
            let moved: Vec<usize> = first_cell.iter().map(|f| trace(&ft, *f, w)).collect();
            assert_eq!(cell.faces.to_vec(), moved);
        }
        let vertex_words = rigid4d::bfs::coset_table_bfs(&vt, 0);
        assert_eq!(mesh.vertex_mirrors, vertex_words);
    }
}

#[test]
fn cells_are_named_and_listed_in_their_order() {
    let mesh = Mesh::from_schlafli_symbol(&[3, 4, 3]).unwrap();
    for face in mesh.faces.iter() {
        assert!(face.hd_cell < face.tl_cell);
    }
    for (v, vertex) in mesh.vertex_data.iter().enumerate() {
        let listed = vertex.cells.to_vec();
        for pair in listed.windows(2) {
            assert!(pair[0] < pair[1]);
        }
        for c in 0..mesh.cells.len() {
            let mut touches = false;
            for f in mesh.cells[c].faces.to_vec() {
                for e in mesh.faces[f].edges.to_vec() {
                    if mesh.edges[e].hd_vertex == v || mesh.edges[e].tl_vertex == v {
                        touches = true;
                    }
                }
            }
            assert_eq!(listed.contains(&c), touches);
        }
    }
}
