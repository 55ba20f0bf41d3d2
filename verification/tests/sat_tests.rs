use rigid4d::index_list::IndexList;
use rigid4d::mesh::Mesh;
use rigid4d::sat::{
    contacts_below, incident_cell, judge, pairing, pairing_key, AxisCheck, AxisResult,
    ColliderKind, CollisionDetection, ContactAxis, ContactData, MeshSat, Pairing, Phase,
    SatReply, SatRequest, NO_PENETRATION_YET, SAT_CACHE_SIZE,
};
use rigid4d::select::{first_greatest, first_least, last_greatest, positions_above};

fn overlap(penetration: f32, vertex_idx: usize) -> AxisCheck {
    AxisCheck::Overlap {
        penetration: penetration.to_bits(),
        contact: ContactData::VertexCell { side: true, vertex_idx, cell_idx: 0 },
    }
}

fn finished(request: SatRequest) -> Option<Option<ContactData>> {
    match request {
        SatRequest::Finished { contact } => Some(contact),
        _ => None,
    }
}

fn run_to_axes(detection: &mut CollisionDetection, key: (u64, u64), a: usize, b: usize) -> MeshSat {
    let mut sat = detection.begin(key, a, b).unwrap();
    assert!(matches!(sat.request(), SatRequest::TestBounds));
    let mut request = detection.advance(&mut sat, SatReply::Bounds { disjoint: false });
    if let SatRequest::RecheckAxis { .. } = request {
        request = detection.advance(&mut sat, SatReply::Recheck { separates: false });
    }
    assert!(matches!(request, SatRequest::CheckAxis { .. }));
    sat
}

#[test]
pub fn edge_edge_separation() {
    // two tesseracts, turned against each other about different planes and
    // pushed into each other along the first axis: every cell of both is an
    // axis of the search, and none of them separates the two
    let tess = Mesh::from_schlafli_symbol(&[4, 3, 3]).unwrap();
    let mut detection = CollisionDetection::new();
    let mut sat = detection.begin((1, 2), tess.cells.len(), tess.cells.len()).unwrap();
    let mut request = detection.advance(&mut sat, SatReply::Bounds { disjoint: false });
    let mut asked = Vec::new();
    while let SatRequest::CheckAxis { axis } = request {
        asked.push(axis);
        let depth = 0.25 + asked.len() as f32;
        request = detection.advance(&mut sat, SatReply::Axis { check: overlap(depth, asked.len()) });
    }
    assert_eq!(asked.len(), 16);
    assert_eq!(asked[0], ContactAxis::VertexCell { side: true, cell_idx: 0 });
    assert_eq!(asked[7], ContactAxis::VertexCell { side: true, cell_idx: 7 });
    assert_eq!(asked[8], ContactAxis::VertexCell { side: false, cell_idx: 0 });
    assert_eq!(asked[15], ContactAxis::VertexCell { side: false, cell_idx: 7 });
    assert_eq!(
        finished(request),
        Some(Some(ContactData::VertexCell { side: true, vertex_idx: 1, cell_idx: 0 }))
    );
    assert_eq!(detection.cached_pairs(), 0);
}

#[test]
fn disjoint_bounds_end_the_search_at_once() {
    let mut detection = CollisionDetection::new();
    let mut sat = detection.begin((1, 2), 8, 8).unwrap();
    let request = detection.advance(&mut sat, SatReply::Bounds { disjoint: true });
    assert_eq!(finished(request), Some(None));
    assert_eq!(sat.phase, Phase::Finished);
    assert_eq!(sat.next, 0);
    assert_eq!(detection.cached_pairs(), 0);
    // a search that has ended stays where it is
    let request = detection.advance(&mut sat, SatReply::Axis { check: overlap(1.0, 3) });
    assert_eq!(finished(request), Some(None));
}

#[test]
fn the_least_penetration_wins_and_ties_keep_the_first() {
    let mut detection = CollisionDetection::new();
    let mut sat = run_to_axes(&mut detection, (1, 2), 2, 3);
    let checks = [
        overlap(0.5, 10),
        AxisCheck::NotValidAxis,
        overlap(0.25, 11),
        overlap(0.25, 12),
        overlap(0.75, 13),
    ];
    let mut request = sat.request();
    for check in checks.iter() {
        assert!(matches!(request, SatRequest::CheckAxis { .. }));
        request = detection.advance(&mut sat, SatReply::Axis { check: *check });
    }
    assert_eq!(
        finished(request),
        Some(Some(ContactData::VertexCell { side: true, vertex_idx: 11, cell_idx: 0 }))
    );
    assert_eq!(sat.min_penetration, 0.25f32.to_bits());
}

#[test]
fn a_separating_axis_ends_the_search_and_is_remembered() {
    let mut detection = CollisionDetection::new();
    let mut sat = run_to_axes(&mut detection, (4, 9), 8, 8);
    detection.advance(&mut sat, SatReply::Axis { check: overlap(0.5, 1) });
    let normal = (1, 2, 3, 4);
    let request =
        detection.advance(&mut sat, SatReply::Axis { check: AxisCheck::NoIntersection { normal } });
    assert_eq!(finished(request), Some(None));
    assert_eq!(detection.cached_pairs(), 1);

    // the next search for the pair asks for the remembered axis first
    let mut again = detection.begin((4, 9), 8, 8).unwrap();
    let request = detection.advance(&mut again, SatReply::Bounds { disjoint: false });
    match request {
        SatRequest::RecheckAxis { cached } => assert_eq!(cached, normal),
        _ => panic!("the cached axis must be tested first"),
    }
    let request = detection.advance(&mut again, SatReply::Recheck { separates: true });
    assert_eq!(finished(request), Some(None));
    // whatever the test showed, the axis is forgotten
    assert_eq!(detection.cached_pairs(), 0);
}

#[test]
fn a_cached_axis_that_no_longer_separates_gives_way_to_the_search() {
    let mut detection = CollisionDetection::new();
    let mut sat = run_to_axes(&mut detection, (4, 9), 1, 0);
    detection.advance(
        &mut sat,
        SatReply::Axis { check: AxisCheck::NoIntersection { normal: (5, 6, 7, 8) } },
    );
    let mut again = detection.begin((4, 9), 1, 0).unwrap();
    let request = detection.advance(&mut again, SatReply::Bounds { disjoint: false });
    assert!(matches!(request, SatRequest::RecheckAxis { cached: (5, 6, 7, 8) }));
    // a reply that does not answer the request changes nothing
    let request = detection.advance(&mut again, SatReply::Bounds { disjoint: true });
    assert!(matches!(request, SatRequest::RecheckAxis { cached: (5, 6, 7, 8) }));
    let request = detection.advance(&mut again, SatReply::Recheck { separates: false });
    assert_eq!(detection.cached_pairs(), 0);
    match request {
        SatRequest::CheckAxis { axis } => {
            assert_eq!(axis, ContactAxis::VertexCell { side: true, cell_idx: 0 })
        },
        _ => panic!("the search must go on with the first axis"),
    }
    // another pair does not see the axis of this one
    let other = run_to_axes(&mut detection, (9, 4), 1, 1);
    assert_eq!(other.next, 0);
}

#[test]
fn the_cache_forgets_the_pair_used_least_recently() {
    assert_eq!(SAT_CACHE_SIZE, 1000);
    let mut detection = CollisionDetection::new();
    for pair in 0..1001u64 {
        let mut sat = run_to_axes(&mut detection, (pair, pair + 1), 1, 1);
        detection.advance(
            &mut sat,
            SatReply::Axis { check: AxisCheck::NoIntersection { normal: (pair as u32, 0, 0, 0) } },
        );
    }
    assert_eq!(detection.cached_pairs(), 1000);
    // the first pair has made room for the last
    let mut first = detection.begin((0, 1), 1, 1).unwrap();
    let request = detection.advance(&mut first, SatReply::Bounds { disjoint: false });
    assert!(matches!(request, SatRequest::CheckAxis { .. }));
    let mut last = detection.begin((1000, 1001), 1, 1).unwrap();
    let request = detection.advance(&mut last, SatReply::Bounds { disjoint: false });
    assert!(matches!(request, SatRequest::RecheckAxis { cached: (1000, 0, 0, 0) }));
}

#[test]
fn meshes_without_cells_have_nothing_to_search() {
    let mut detection = CollisionDetection::new();
    let mut sat = detection.begin((1, 2), 0, 0).unwrap();
    let request = detection.advance(&mut sat, SatReply::Bounds { disjoint: false });
    assert_eq!(finished(request), Some(None));
    assert!(detection.begin((1, 2), usize::MAX, 1).is_none());
}

#[test]
fn an_overlap_counts_only_if_it_is_smaller() {
    let contact = ContactData::EdgeFace { side: false, edge_idx: 1, face_idx: 2 };
    let check = AxisCheck::Overlap { penetration: 5, contact };
    assert!(matches!(judge(check, 6), AxisResult::Intersection { penetration: 5, .. }));
    assert!(matches!(judge(check, 5), AxisResult::LargerPenetration));
    assert!(matches!(judge(check, NO_PENETRATION_YET), AxisResult::Intersection { .. }));
    assert!(matches!(judge(AxisCheck::NotValidAxis, 5), AxisResult::NotValidAxis));
    assert!(matches!(
        judge(AxisCheck::NoIntersection { normal: (1, 2, 3, 4) }, 5),
        AxisResult::NoIntersection { normal: (1, 2, 3, 4) }
    ));
    assert_eq!(NO_PENETRATION_YET, f32::INFINITY.to_bits());
}

#[test]
fn colliders_are_paired_by_their_kinds() {
    let half_space = ColliderKind::HalfSpace;
    let mesh = ColliderKind::Mesh;
    let sphere = ColliderKind::Sphere;
    assert_eq!(pairing(half_space, mesh), Pairing::HalfSpaceMesh { swapped: false });
    assert_eq!(pairing(mesh, half_space), Pairing::HalfSpaceMesh { swapped: true });
    assert_eq!(pairing(mesh, mesh), Pairing::MeshMesh);
    assert_eq!(pairing(half_space, half_space), Pairing::Nothing);
    assert_eq!(pairing(sphere, mesh), Pairing::Nothing);
    assert_eq!(pairing(sphere, sphere), Pairing::Nothing);
    assert_eq!(pairing_key((1, 2), Pairing::HalfSpaceMesh { swapped: true }), (2, 1));
    assert_eq!(pairing_key((1, 2), Pairing::HalfSpaceMesh { swapped: false }), (1, 2));
    assert_eq!(pairing_key((1, 2), Pairing::MeshMesh), (1, 2));
}

#[test]
fn the_points_below_a_plane_are_its_contacts() {
    let depths = vec![-3, 2, 0, 7, 7, 1];
    let contacts = contacts_below(&depths, 0).unwrap();
    assert_eq!(contacts.points, vec![1, 3, 4, 5]);
    assert_eq!(contacts.deepest, 3);
    assert!(contacts_below(&vec![-1, 0, -5], 0).is_none());
    assert!(contacts_below(&Vec::new(), 0).is_none());
}

#[test]
fn the_incident_cell_is_the_most_opposed() {
    let cells = IndexList::from_vec(&vec![4, 9, 2, 6]);
    assert_eq!(incident_cell(&cells, &vec![5, -3, -3, 0]), Some(9));
    assert_eq!(incident_cell(&cells, &vec![5, 7, 6, 9]), Some(4));
    assert_eq!(incident_cell(&cells, &vec![10, 11, 10, 12]), Some(4));
    assert_eq!(incident_cell(&IndexList::new(), &Vec::new()), None);
}

#[test]
fn candidates_are_chosen_by_their_keys() {
    let keys = vec![4, 1, 7, 1, 7, 3];
    assert_eq!(first_least(&keys, 5), Some(1));
    assert_eq!(first_least(&keys, 1), None);
    assert_eq!(first_least(&keys, 2), Some(1));
    assert_eq!(first_greatest(&keys, 5), Some(2));
    assert_eq!(first_greatest(&keys, 7), None);
    assert_eq!(last_greatest(&keys), Some(4));
    assert_eq!(last_greatest(&Vec::new()), None);
    assert_eq!(positions_above(&keys, 3), vec![0, 2, 4]);
    assert_eq!(positions_above(&keys, 9), Vec::<usize>::new());
}

#[test]
fn the_first_of_the_least_keys_is_found() {
    assert_eq!(rigid4d::select::first_smallest(&vec![4, 2, 7, 2, 9]), Some(1));
    assert_eq!(rigid4d::select::first_smallest(&vec![3]), Some(0));
    assert_eq!(rigid4d::select::first_smallest(&vec![i32::MAX, i32::MAX]), Some(0));
    assert_eq!(rigid4d::select::first_smallest(&Vec::new()), None);
}
