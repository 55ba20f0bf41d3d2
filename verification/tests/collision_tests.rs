use rigid4d::clip::{ClipMesh, Side, VertexOrigin};
use rigid4d::mesh::Mesh;
use rigid4d::sat::{
    contacts_below, incident_cell, AxisCheck, CollisionDetection, ContactAxis, ContactData,
};
use rigid4d::select::first_least;
use std::cell::Cell;

type V4 = [f32; 4];

fn dot(a: V4, b: V4) -> f32 {
    a[0] * b[0] + a[1] * b[1] + a[2] * b[2] + a[3] * b[3]
}

fn add(a: V4, b: V4) -> V4 {
    [a[0] + b[0], a[1] + b[1], a[2] + b[2], a[3] + b[3]]
}

fn sub(a: V4, b: V4) -> V4 {
    [a[0] - b[0], a[1] - b[1], a[2] - b[2], a[3] - b[3]]
}

fn scale(a: V4, s: f32) -> V4 {
    [a[0] * s, a[1] * s, a[2] * s, a[3] * s]
}

fn reflect(v: V4, mirror: V4) -> V4 {
    sub(v, scale(mirror, 2.0 * dot(mirror, v)))
}

/// A key that is ordered among the keys of other floats as the float is.
fn key(f: f32) -> i32 {
    assert!(!f.is_nan());
    let bits = (f + 0.0).to_bits() as i32;
    if bits < 0 {
        bits ^ 0x7fff_ffff
    } else {
        bits
    }
}

struct Tesseract {
    topology: Mesh,
    vertices: Vec<V4>,
    normals: Vec<V4>,
    radius: f32,
}

/// The tesseract with its vertices on the unit sphere: its edges have the
/// length one.
fn tesseract() -> Tesseract {
    let topology = Mesh::from_schlafli_symbol(&[4, 3, 3]).unwrap();
    let pi = std::f32::consts::PI;
    let mut mirrors = [[0f32; 4]; 4];
    mirrors[0] = [1.0, 0.0, 0.0, 0.0];
    mirrors[1][0] = (pi / 4.0).cos();
    mirrors[1][1] = (1.0 - mirrors[1][0].powi(2)).sqrt();
    mirrors[2][1] = (pi / 3.0).cos() / mirrors[1][1];
    mirrors[2][2] = (1.0 - mirrors[2][1].powi(2)).sqrt();
    mirrors[3][2] = (pi / 3.0).cos() / mirrors[2][2];
    mirrors[3][3] = (1.0 - mirrors[3][2].powi(2)).sqrt();

    let mut v0 = [1.0f32, 0.0, 0.0, 0.0];
    v0[1] = -mirrors[1][0] * v0[0] / mirrors[1][1];
    v0[2] = -mirrors[2][1] * v0[1] / mirrors[2][2];
    v0[3] = -mirrors[3][2] * v0[2] / mirrors[3][3];
    let v0 = scale(v0, 1.0 / dot(v0, v0).sqrt());

    let along = |start: V4, word: &Vec<usize>| word.iter().fold(start, |v, m| reflect(v, mirrors[*m]));
    let vertices = topology.vertex_mirrors.iter().map(|word| along(v0, word)).collect();
    let normals =
        topology.cells.iter().map(|cell| along([0.0, 0.0, 0.0, -1.0], &cell.mirrors)).collect();
    Tesseract { topology, vertices, normals, radius: 1.0 }
}

struct Placed<'a> {
    mesh: &'a Tesseract,
    pos: V4,
}

struct Manifold {
    normal: V4,
    depth: f32,
    contacts: Vec<V4>,
}

/// What the projection onto the normal of a cell of `a` shows.
fn check_vertex_cell(a: &Placed, b: &Placed, cell_idx: usize, side: bool) -> AxisCheck {
    let normal = a.mesh.normals[cell_idx];
    let v0 = a.mesh.vertices[a.mesh.topology.cell_representative_vertex(cell_idx)];
    let dist_a = dot(v0, normal);
    let distances: Vec<f32> = b
        .mesh
        .vertices
        .iter()
        .map(|v| dot(sub(add(*v, b.pos), a.pos), normal))
        .collect();
    let keys: Vec<i32> = distances.iter().map(|d| key(*d)).collect();
    match first_least(&keys, key(dist_a)) {
        Some(vertex_idx) => AxisCheck::Overlap {
            penetration: (dist_a - distances[vertex_idx]).to_bits(),
            contact: ContactData::VertexCell { side, vertex_idx, cell_idx },
        },
        None => AxisCheck::NoIntersection {
            normal: (normal[0].to_bits(), normal[1].to_bits(), normal[2].to_bits(), normal[3].to_bits()),
        },
    }
}

fn span(a: &Placed, normal: V4) -> (f32, f32) {
    a.mesh.vertices.iter().fold((f32::INFINITY, f32::NEG_INFINITY), |(lo, hi), v| {
        let d = dot(add(*v, a.pos), normal);
        (lo.min(d), hi.max(d))
    })
}

fn resolve(a: &Placed, b: &Placed, side: bool, vertex_idx: usize, cell_idx: usize) -> Manifold {
    if !side {
        let mut result = resolve(b, a, true, vertex_idx, cell_idx);
        result.normal = scale(result.normal, -1.0);
        return result;
    }
    let reference_normal = a.mesh.normals[cell_idx];
    let candidates = &b.mesh.topology.vertex_data[vertex_idx].cells;
    let alignment: Vec<i32> = candidates
        .to_vec()
        .into_iter()
        .map(|cell| key(dot(b.mesh.normals[cell], reference_normal)))
        .collect();
    let incident = incident_cell(candidates, &alignment).unwrap();

    let mut clip = ClipMesh::from_cell(&b.mesh.topology, incident);
    let mut points: Vec<V4> = clip
        .vertices
        .iter()
        .map(|v| match v.origin {
            VertexOrigin::Mesh(v) => b.mesh.vertices[v],
            VertexOrigin::Cut(_, _) => unreachable!(),
        })
        .collect();
    let mut v0 = [0.0; 4];
    for plane in a.mesh.topology.clip_planes(cell_idx) {
        v0 = a.mesh.vertices[plane.vertex];
        let clip_normal = scale(a.mesh.normals[plane.cell], -1.0);
        let clip_distance = dot(clip_normal, sub(add(v0, a.pos), b.pos));
        let distances: Vec<f32> = points.iter().map(|p| dot(clip_normal, *p) - clip_distance).collect();
        let sides: Vec<Side> = distances
            .iter()
            .map(|d| {
                if *d >= 1e-6 {
                    Side::Positive
                } else if *d < -1e-6 {
                    Side::Negative
                } else {
                    Side::Zero
                }
            })
            .collect();
        clip.clip_by(&sides);
        for v in points.len()..clip.vertex_count() {
            match clip.vertices[v].origin {
                VertexOrigin::Cut(hd, tl) => {
                    let t = distances[hd] / (distances[hd] - distances[tl]);
                    points.push(add(scale(points[hd], 1.0 - t), scale(points[tl], t)));
                },
                VertexOrigin::Mesh(_) => unreachable!(),
            }
        }
    }
    let reference_dist = dot(v0, reference_normal);
    let world: Vec<V4> = clip.to_vertices().into_iter().map(|v| add(points[v], b.pos)).collect();
    let depths: Vec<f32> =
        world.iter().map(|p| reference_dist - dot(sub(*p, a.pos), reference_normal)).collect();
    let keys: Vec<i32> = depths.iter().map(|d| key(*d)).collect();
    match contacts_below(&keys, key(0.0)) {
        Some(contacts) => Manifold {
            normal: reference_normal,
            depth: depths[contacts.deepest],
            contacts: contacts.points.into_iter().map(|v| world[v]).collect(),
        },
        None => Manifold { normal: reference_normal, depth: 0.0, contacts: Vec::new() },
    }
}

/// The manifold of two tesseracts, and the number of axes that were tried.
fn detect(
    detection: &mut CollisionDetection,
    key: (u64, u64),
    a: &Placed,
    b: &Placed,
) -> (Option<Manifold>, usize) {
    let tried = Cell::new(0usize);
    let cells_a = a.mesh.topology.cells.len();
    let cells_b = b.mesh.topology.cells.len();
    let bounds = || {
        let between = sub(a.pos, b.pos);
        dot(between, between) > (a.mesh.radius + b.mesh.radius).powi(2)
    };
    let recheck = |axis: (u32, u32, u32, u32)| {
        let normal =
            [f32::from_bits(axis.0), f32::from_bits(axis.1), f32::from_bits(axis.2), f32::from_bits(axis.3)];
        let (a_span, b_span) = (span(a, normal), span(b, normal));
        !(a_span.0 <= b_span.1 && b_span.0 <= a_span.1)
    };
    let check = |axis: ContactAxis| {
        tried.set(tried.get() + 1);
        match axis {
            ContactAxis::VertexCell { side: true, cell_idx } => check_vertex_cell(a, b, cell_idx, true),
            ContactAxis::VertexCell { side: false, cell_idx } => check_vertex_cell(b, a, cell_idx, false),
            ContactAxis::EdgeFace { .. } => AxisCheck::NotValidAxis,
        }
    };
    let contact = detection.mesh_sat(key, cells_a, cells_b, bounds, recheck, check);
    let manifold = contact.map(|contact| match contact {
        ContactData::VertexCell { side, vertex_idx, cell_idx } => resolve(a, b, side, vertex_idx, cell_idx),
        ContactData::EdgeFace { .. } => unreachable!(),
    });
    (manifold, tried.get())
}

#[test]
fn the_tesseract_has_unit_edges_and_unit_normals() {
    let t = tesseract();
    for edge in t.topology.edges.iter() {
        let along = sub(t.vertices[edge.tl_vertex], t.vertices[edge.hd_vertex]);
        assert!((dot(along, along) - 1.0).abs() < 1e-5);
    }
    for (cell_idx, normal) in t.normals.iter().enumerate() {
        assert!((dot(*normal, *normal) - 1.0).abs() < 1e-5);
        // every vertex lies on the plane of the cell or behind it
        let v0 = t.vertices[t.topology.cell_representative_vertex(cell_idx)];
        assert!((dot(v0, *normal) - 0.5).abs() < 1e-5);
        for v in t.vertices.iter() {
            assert!(dot(*v, *normal) < 0.5 + 1e-5);
        }
    }
}

#[test]
fn meshes_far_apart_are_told_apart_without_a_search() {
    let t = tesseract();
    let a = Placed { mesh: &t, pos: [0.0; 4] };
    let b = Placed { mesh: &t, pos: [3.0, 0.0, 0.0, 0.0] };
    let mut detection = CollisionDetection::new();
    let (manifold, tried) = detect(&mut detection, (1, 2), &a, &b);
    assert!(manifold.is_none());
    assert_eq!(tried, 0);
    assert_eq!(detection.cached_pairs(), 0);
}

#[test]
fn overlapping_tesseracts_touch_along_the_axis_of_least_overlap() {
    let t = tesseract();
    let toward = t.normals[3];
    let a = Placed { mesh: &t, pos: [0.0; 4] };
    let b = Placed { mesh: &t, pos: scale(toward, 0.1) };
    let mut detection = CollisionDetection::new();
    let (manifold, tried) = detect(&mut detection, (1, 2), &a, &b);
    let manifold = manifold.unwrap();
    assert_eq!(tried, 16);
    assert!((manifold.depth - 0.9).abs() < 1e-4);
    assert!(!manifold.contacts.is_empty());
    assert_eq!(manifold.contacts.len(), 8);
    // the normal is the axis along which the second was moved
    assert!((dot(manifold.normal, toward).abs() - 1.0).abs() < 1e-5);
    for contact in manifold.contacts.iter() {
        assert!((dot(*contact, toward) - (0.1 - 0.5)).abs() < 1e-4);
    }
    assert_eq!(detection.cached_pairs(), 0);
}

#[test]
fn tesseracts_side_by_side_are_separated_by_a_cell() {
    let t = tesseract();
    let toward = t.normals[5];
    let a = Placed { mesh: &t, pos: [0.0; 4] };
    let b = Placed { mesh: &t, pos: scale(toward, 1.2) };
    let mut detection = CollisionDetection::new();
    let (manifold, tried) = detect(&mut detection, (1, 2), &a, &b);
    assert!(manifold.is_none());
    // the search ends with the cell that faces the other tesseract
    assert_eq!(tried, 6);
    assert_eq!(detection.cached_pairs(), 1);
}

#[test]
fn detection_on_a_scene_at_rest_gives_the_same_result_again_and_again() {
    let t = tesseract();
    let a = Placed { mesh: &t, pos: [0.0; 4] };
    let touching = Placed { mesh: &t, pos: scale(t.normals[2], 0.4) };
    let apart = Placed { mesh: &t, pos: scale(t.normals[2], 1.5) };
    let mut detection = CollisionDetection::new();
    let (first, _) = detect(&mut detection, (1, 2), &a, &touching);
    let first = first.unwrap();
    for _ in 0..4 {
        let (again, _) = detect(&mut detection, (1, 2), &a, &touching);
        let again = again.unwrap();
        assert_eq!(again.normal, first.normal);
        assert_eq!(again.depth.to_bits(), first.depth.to_bits());
        assert_eq!(again.contacts, first.contacts);
    }
    for round in 0..6 {
        let (manifold, tried) = detect(&mut detection, (1, 3), &a, &apart);
        assert!(manifold.is_none());
        // the axis found by a search is tested alone the next time
        assert_eq!(tried == 0, round % 2 == 1);
        assert_eq!(detection.cached_pairs(), if round % 2 == 0 { 1 } else { 0 });
    }
}

#[test]
fn a_tesseract_that_sticks_out_sideways_is_clipped_to_the_overlap() {
    let t = tesseract();
    let toward = t.normals[0];
    // a direction along the plane of the cell: the normal of a neighbour
    let face = t.topology.cells[0].faces.get(0);
    let sideways = t.normals[t.topology.adjacent_cell(face, 0)];
    assert!(dot(toward, sideways).abs() < 1e-5);
    let a = Placed { mesh: &t, pos: [0.0; 4] };
    let b = Placed { mesh: &t, pos: add(scale(toward, 0.8), scale(sideways, 0.5)) };
    let mut detection = CollisionDetection::new();
    let (manifold, _) = detect(&mut detection, (1, 2), &a, &b);
    let manifold = manifold.unwrap();
    assert!((manifold.depth - 0.2).abs() < 1e-4);
    assert!((dot(manifold.normal, toward).abs() - 1.0).abs() < 1e-5);
    // the contact points lie in the half of the cell that both cover
    assert_eq!(manifold.contacts.len(), 8);
    for contact in manifold.contacts.iter() {
        let across = dot(*contact, sideways);
        assert!(across > -1e-4 && across < 0.5 + 1e-4);
    }
}
