//! The search for a separating axis between two convex meshes, as far as
//! it can be decided without coordinates: in which order the axes are
//! tried, which overlap is kept, when the search ends, and what the cache of
//! separating axes is asked and told.
//!
//! The caller measures: it tests the bounding spheres, projects the meshes
//! onto each axis that the search asks for, and reports what it found.

use vstd::prelude::*;
use lru::LruCache;
use crate::index_list::IndexList;
use crate::select::{
    first_greatest, first_smallest, is_first_greatest, is_first_smallest, positions_above,
};
use crate::cache::{
    cache_get, cache_len, cache_new, cache_pop, cache_put, cache_entries, cache_capacity,
    cache_valid, entries_after_get, entries_after_put, lemma_forget_after_get, lemma_forgotten,
    lemma_put_found, lookup, without,
    AxisBits, PairKey,
};

verus! {

/// The number of separating axes that the cache holds at most.
pub const SAT_CACHE_SIZE: usize = 1000;

/// The key of a penetration that exceeds every penetration: the bit
/// pattern of positive infinity.
pub const NO_PENETRATION_YET: u32 = 0x7f80_0000;

/// An axis along which two meshes may be separated. `side` tells which
/// mesh the cell or the face belongs to: the first if it is `true`.
#[derive(Clone, Copy, PartialEq, Eq, Structural, Debug)]
pub enum ContactAxis {
    VertexCell { side: bool, cell_idx: usize },
    EdgeFace { side: bool, edge_idx: usize, face_idx: usize },
}

/// Where two meshes touch, found on an axis along which they overlap.
#[derive(Clone, Copy, PartialEq, Eq, Structural, Debug)]
pub enum ContactData {
    VertexCell { side: bool, vertex_idx: usize, cell_idx: usize },
    EdgeFace { side: bool, edge_idx: usize, face_idx: usize },
}

/// What the projection of two meshes onto an axis shows. A penetration is
/// given by a key: keys are ordered as the penetrations are.
#[derive(Clone, Copy, Debug)]
pub enum AxisCheck {
    NotValidAxis,
    Overlap { penetration: u32, contact: ContactData },
    NoIntersection { normal: AxisBits },
}

/// What an axis means for the search.
#[derive(Clone, Copy, Debug)]
pub enum AxisResult {
    Intersection { penetration: u32, contact: ContactData },
    NotValidAxis,
    LargerPenetration,
    NoIntersection { normal: AxisBits },
}

/// What an axis means for a search that has found the penetration
/// `min_penetration` so far: an overlap counts only if it is smaller.
pub open spec fn spec_judge(check: AxisCheck, min_penetration: u32) -> AxisResult {
    match check {
        AxisCheck::NotValidAxis => AxisResult::NotValidAxis,
        AxisCheck::Overlap { penetration, contact } => if penetration < min_penetration {
            AxisResult::Intersection { penetration, contact }
        } else {
            AxisResult::LargerPenetration
        },
        AxisCheck::NoIntersection { normal } => AxisResult::NoIntersection { normal },
    }
}

/// What an axis means for a search that has found the penetration
/// `min_penetration` so far.
pub fn judge(check: AxisCheck, min_penetration: u32) -> (result: AxisResult)
    ensures
        result == spec_judge(check, min_penetration),
{
    match check {
        AxisCheck::NotValidAxis => AxisResult::NotValidAxis,
        AxisCheck::Overlap { penetration, contact } => {
            if penetration < min_penetration {
                AxisResult::Intersection { penetration, contact }
            } else {
                AxisResult::LargerPenetration
            }
        },
        AxisCheck::NoIntersection { normal } => AxisResult::NoIntersection { normal },
    }
}

/// The axis at position `i` of a search: first the cells of the first
/// mesh, then the cells of the second.
pub open spec fn axis_at(cells_a: usize, i: int) -> ContactAxis {
    if i < cells_a {
        ContactAxis::VertexCell { side: true, cell_idx: i as usize }
    } else {
        ContactAxis::VertexCell { side: false, cell_idx: (i - cells_a) as usize }
    }
}

/// The least penetration among the overlaps of `checks`, and the contact
/// of the first overlap that has it.
pub open spec fn best_of(checks: Seq<AxisCheck>) -> (u32, Option<ContactData>)
    decreases checks.len(),
{
    if checks.len() == 0 {
        (NO_PENETRATION_YET, None)
    } else {
        let before = best_of(checks.drop_last());
        match spec_judge(checks.last(), before.0) {
            AxisResult::Intersection { penetration, contact } => (penetration, Some(contact)),
            _ => before,
        }
    }
}

/// The check at position `i` is an overlap whose penetration is less than
/// that of every earlier overlap and not more than that of any later one.
pub open spec fn is_least_overlap(checks: Seq<AxisCheck>, i: int) -> bool {
    &&& 0 <= i < checks.len()
    &&& checks[i] is Overlap
    &&& checks[i]->penetration < NO_PENETRATION_YET
    &&& forall|j: int|
        0 <= j < i && checks[j] is Overlap ==> checks[j]->penetration > checks[i]->penetration
    &&& forall|j: int|
        i < j < checks.len() && checks[j] is Overlap ==> checks[j]->penetration
            >= checks[i]->penetration
}

/// The contact that a search keeps is that of the first overlap of least
/// penetration; it keeps none exactly if no overlap has a penetration below
/// the one that exceeds all.
pub proof fn lemma_best_is_least(checks: Seq<AxisCheck>)
    ensures
        match best_of(checks).1 {
            Some(contact) => exists|i: int|
                is_least_overlap(checks, i) && checks[i]->contact == contact && checks[i]->penetration
                    == best_of(checks).0,
            None => best_of(checks).0 == NO_PENETRATION_YET && forall|j: int|
                0 <= j < checks.len() && checks[j] is Overlap ==> checks[j]->penetration
                    >= NO_PENETRATION_YET,
        },
    decreases checks.len(),
{
    if checks.len() > 0 {
        let head = checks.drop_last();
        lemma_best_is_least(head);
        let before = best_of(head);
        match spec_judge(checks.last(), before.0) {
            AxisResult::Intersection { penetration, contact } => {
                let i = checks.len() - 1;
                assert forall|j: int| 0 <= j < i && checks[j] is Overlap implies checks[j]->penetration
                    > checks[i]->penetration by {
                    if before.1 is Some {
                        let w = choose|w: int|
                            is_least_overlap(head, w) && head[w]->contact == before.1->Some_0
                                && head[w]->penetration == before.0;
                        assert(head[j] == checks[j]);
                        assert(head[w] == checks[w]);
                    } else {
                        assert(head[j] == checks[j]);
                    }
                }
                assert(is_least_overlap(checks, i));
            },
            _ => {
                if before.1 is Some {
                    let w = choose|w: int|
                        is_least_overlap(head, w) && head[w]->contact == before.1->Some_0
                            && head[w]->penetration == before.0;
                    assert(head[w] == checks[w]);
                    assert forall|j: int| w < j < checks.len() && checks[j] is Overlap implies checks[j]->penetration
                        >= checks[w]->penetration by {
                        if j < checks.len() - 1 {
                            assert(head[j] == checks[j]);
                        }
                    }
                    assert forall|j: int| 0 <= j < w && checks[j] is Overlap implies checks[j]->penetration
                        > checks[w]->penetration by {
                        assert(head[j] == checks[j]);
                    }
                    assert(is_least_overlap(checks, w));
                } else {
                    assert forall|j: int| 0 <= j < checks.len() && checks[j] is Overlap implies checks[j]->penetration
                        >= NO_PENETRATION_YET by {
                        if j < checks.len() - 1 {
                            assert(head[j] == checks[j]);
                        }
                    }
                }
            },
        }
    }
}

/// Where a search stands.
#[derive(Clone, Copy, PartialEq, Eq, Structural, Debug)]
pub enum Phase {
    Bounds,
    Cached,
    Axes,
    Finished,
}

/// What the search asks its caller to do next.
#[derive(Clone, Copy, Debug)]
pub enum SatRequest {
    TestBounds,
    RecheckAxis { cached: AxisBits },
    CheckAxis { axis: ContactAxis },
    Finished { contact: Option<ContactData> },
}

/// What the caller found.
#[derive(Clone, Copy, Debug)]
pub enum SatReply {
    Bounds { disjoint: bool },
    Recheck { separates: bool },
    Axis { check: AxisCheck },
}

/// The search for a separating axis between the two meshes of one pair of
/// bodies.
pub struct MeshSat {
    pub key: PairKey,
    pub cells_a: usize,
    pub cells_b: usize,
    pub phase: Phase,
    pub recheck: AxisBits,
    pub next: usize,
    pub min_penetration: u32,
    pub contact: Option<ContactData>,
    pub checks: Ghost<Seq<AxisCheck>>,
}

impl MeshSat {
    /// The number of axes of the search.
    pub open spec fn total(&self) -> int {
        self.cells_a + self.cells_b
    }

    /// What holds of a search at every step.
    pub open spec fn inv(&self) -> bool {
        &&& self.total() <= usize::MAX
        &&& self.next <= self.total()
        &&& self.checks@.len() == self.next
        &&& (self.min_penetration, self.contact) == best_of(self.checks@)
        &&& forall|i: int| 0 <= i < self.checks@.len() ==> !(self.checks@[i] is NoIntersection)
        &&& match self.phase {
            Phase::Bounds => self.next == 0,
            Phase::Cached => self.next == 0,
            Phase::Axes => self.next < self.total(),
            Phase::Finished => true,
        }
    }

    /// What the search is waiting for.
    pub open spec fn pending(&self) -> SatRequest {
        match self.phase {
            Phase::Bounds => SatRequest::TestBounds,
            Phase::Cached => SatRequest::RecheckAxis { cached: self.recheck },
            Phase::Axes => SatRequest::CheckAxis { axis: axis_at(self.cells_a, self.next as int) },
            Phase::Finished => SatRequest::Finished { contact: self.contact },
        }
    }

    /// The search goes on with its first axis, or ends at once if the
    /// meshes have no cells.
    pub open spec fn at_first_axis(&self) -> bool {
        &&& self.next == 0
        &&& self.phase == if self.total() == 0 { Phase::Finished } else { Phase::Axes }
        &&& self.contact is None
    }

    /// The axis that the search tries next.
    pub fn current_axis(&self) -> (axis: ContactAxis)
        requires
            self.inv(),
            self.next < self.total(),
        ensures
            axis == axis_at(self.cells_a, self.next as int),
    {
        if self.next < self.cells_a {
            ContactAxis::VertexCell { side: true, cell_idx: self.next }
        } else {
            ContactAxis::VertexCell { side: false, cell_idx: self.next - self.cells_a }
        }
    }

    /// What the search is waiting for.
    pub fn request(&self) -> (request: SatRequest)
        requires
            self.inv(),
        ensures
            request == self.pending(),
    {
        match self.phase {
            Phase::Bounds => SatRequest::TestBounds,
            Phase::Cached => SatRequest::RecheckAxis { cached: self.recheck },
            Phase::Axes => SatRequest::CheckAxis { axis: self.current_axis() },
            Phase::Finished => SatRequest::Finished { contact: self.contact },
        }
    }

    /// Turns to the first axis.
    pub fn start_axes(&mut self)
        requires
            old(self).inv(),
            old(self).next == 0,
        ensures
            final(self).inv(),
            final(self).at_first_axis(),
            final(self).key == old(self).key,
            final(self).cells_a == old(self).cells_a,
            final(self).cells_b == old(self).cells_b,
            final(self).checks == old(self).checks,
    {
        if self.cells_a == 0 && self.cells_b == 0 {
            self.phase = Phase::Finished;
        } else {
            self.phase = Phase::Axes;
        }
    }

    /// Takes note of what the current axis shows, when it does not
    /// separate the meshes, and turns to the next axis.
    pub fn note(&mut self, check: AxisCheck)
        requires
            old(self).inv(),
            old(self).phase == Phase::Axes,
            !(check is NoIntersection),
        ensures
            final(self).inv(),
            final(self).key == old(self).key,
            final(self).cells_a == old(self).cells_a,
            final(self).cells_b == old(self).cells_b,
            final(self).checks@ == old(self).checks@.push(check),
            final(self).next == old(self).next + 1,
            final(self).phase == if final(self).next == final(self).total() {
                Phase::Finished
            } else {
                Phase::Axes
            },
    {
        match judge(check, self.min_penetration) {
            AxisResult::Intersection { penetration, contact } => {
                self.min_penetration = penetration;
                self.contact = Some(contact);
            },
            _ => {},
        }
        proof {
            assert(self.checks@.push(check).drop_last() =~= self.checks@);
            self.checks@ = self.checks@.push(check);
        }
        self.next = self.next + 1;
        if self.next == self.cells_a + self.cells_b {
            self.phase = Phase::Finished;
        }
    }
}

/// The collision detection of a world: it remembers, for the pairs of
/// bodies tested most recently, the axis that separated them.
pub struct CollisionDetection {
    pub sat_cache: LruCache<PairKey, AxisBits>,
}

impl View for CollisionDetection {
    type V = Seq<(PairKey, AxisBits)>;

    open spec fn view(&self) -> Seq<(PairKey, AxisBits)> {
        cache_entries(self.sat_cache)
    }
}

impl CollisionDetection {
    /// The cache is as a cache is.
    pub open spec fn valid(&self) -> bool {
        cache_valid(self.sat_cache)
    }

    /// The number of axes that the cache holds at most.
    pub open spec fn capacity(&self) -> nat {
        cache_capacity(self.sat_cache)
    }

    /// A detection that remembers nothing yet.
    pub fn new() -> (detection: CollisionDetection)
        ensures
            detection.valid(),
            detection@ == Seq::<(PairKey, AxisBits)>::empty(),
            detection.capacity() == SAT_CACHE_SIZE,
    {
        CollisionDetection { sat_cache: cache_new(SAT_CACHE_SIZE) }
    }

    /// The number of pairs for which an axis is remembered.
    pub fn cached_pairs(&self) -> (n: usize)
        ensures
            n == self@.len(),
    {
        cache_len(&self.sat_cache)
    }

    /// Begins the search for the pair `key`, whose meshes have `cells_a`
    /// and `cells_b` cells. The search first asks for a test of the bounding
    /// spheres. Returns `None` if the meshes have more cells together than
    /// can be counted.
    pub fn begin(&self, key: PairKey, cells_a: usize, cells_b: usize) -> (sat: Option<MeshSat>)
        ensures
            sat is Some == (cells_a + cells_b <= usize::MAX),
            match sat {
                Some(s) => {
                    &&& s.inv()
                    &&& s.key == key
                    &&& s.cells_a == cells_a
                    &&& s.cells_b == cells_b
                    &&& s.phase == Phase::Bounds
                    &&& s.checks@.len() == 0
                    &&& s.pending() == SatRequest::TestBounds
                },
                None => true,
            },
    {
        if cells_a > usize::MAX - cells_b {
            return None;
        }
        Some(
            MeshSat {
                key,
                cells_a,
                cells_b,
                phase: Phase::Bounds,
                recheck: (0, 0, 0, 0),
                next: 0,
                min_penetration: NO_PENETRATION_YET,
                contact: None,
                checks: Ghost(Seq::empty()),
            },
        )
    }

    /// Takes the caller's reply to what the search asked for, and returns
    /// what it asks for next.
    ///
    /// Bounding spheres that are disjoint end the search without a contact
    /// and without a question to the cache. Otherwise the cache is asked for
    /// an axis: if it has one, the caller is to test it again. Whatever that
    /// test shows, the cache forgets the axis; if the axis still separates
    /// the meshes, the search ends without a contact. Then the axes are
    /// tried in their order. The first axis that separates the meshes ends
    /// the search without a contact and is given to the cache. When all axes
    /// have been tried, the search ends with the contact of the first
    /// overlap of least penetration. A reply that does not answer what was
    /// asked changes nothing: the search asks again.
    pub fn advance(&mut self, sat: &mut MeshSat, reply: SatReply) -> (request: SatRequest)
        requires
            old(self).valid(),
            old(sat).inv(),
        ensures
            final(self).valid(),
            final(self).capacity() == old(self).capacity(),
            final(sat).inv(),
            final(sat).key == old(sat).key,
            final(sat).cells_a == old(sat).cells_a,
            final(sat).cells_b == old(sat).cells_b,
            request == final(sat).pending(),
            match (old(sat).phase, reply) {
                (Phase::Bounds, SatReply::Bounds { disjoint }) => {
                    if disjoint {
                        &&& final(sat).phase == Phase::Finished
                        &&& final(sat).contact is None
                        &&& final(sat).next == 0
                        &&& final(self)@ == old(self)@
                    } else {
                        match lookup(old(self)@, old(sat).key) {
                            Some(axis) => {
                                &&& final(sat).phase == Phase::Cached
                                &&& final(sat).recheck == axis
                                &&& final(sat).next == 0
                                &&& final(self)@ == entries_after_get(old(self)@, old(sat).key)
                            },
                            None => {
                                &&& final(sat).at_first_axis()
                                &&& final(self)@ == old(self)@
                            },
                        }
                    }
                },
                (Phase::Cached, SatReply::Recheck { separates }) => {
                    &&& final(self)@ == without(old(self)@, old(sat).key)
                    &&& if separates {
                        &&& final(sat).phase == Phase::Finished
                        &&& final(sat).contact is None
                        &&& final(sat).next == 0
                    } else {
                        final(sat).at_first_axis()
                    }
                },
                (Phase::Axes, SatReply::Axis { check }) => {
                    match check {
                        AxisCheck::NoIntersection { normal } => {
                            &&& final(sat).phase == Phase::Finished
                            &&& final(sat).contact is None
                            &&& final(sat).next == 0
                            &&& final(self)@ == entries_after_put(
                                old(self)@,
                                old(self).capacity(),
                                old(sat).key,
                                normal,
                            )
                        },
                        _ => {
                            &&& final(sat).checks@ == old(sat).checks@.push(check)
                            &&& final(sat).next == old(sat).next + 1
                            &&& final(sat).phase == if final(sat).next == final(sat).total() {
                                Phase::Finished
                            } else {
                                Phase::Axes
                            }
                            &&& final(self)@ == old(self)@
                        },
                    }
                },
                _ => *final(sat) == *old(sat) && final(self)@ == old(self)@,
            },
    {
        match (sat.phase, reply) {
            (Phase::Bounds, SatReply::Bounds { disjoint }) => {
                if disjoint {
                    sat.phase = Phase::Finished;
                } else {
                    match cache_get(&mut self.sat_cache, sat.key) {
                        Some(axis) => {
                            sat.recheck = axis;
                            sat.phase = Phase::Cached;
                        },
                        None => {
                            sat.start_axes();
                        },
                    }
                }
            },
            (Phase::Cached, SatReply::Recheck { separates }) => {
                cache_pop(&mut self.sat_cache, sat.key);
                if separates {
                    sat.phase = Phase::Finished;
                } else {
                    sat.start_axes();
                }
            },
            (Phase::Axes, SatReply::Axis { check }) => {
                match check {
                    AxisCheck::NoIntersection { normal } => {
                        cache_put(&mut self.sat_cache, sat.key, normal);
                        sat.contact = None;
                        sat.min_penetration = NO_PENETRATION_YET;
                        proof {
                            sat.checks@ = Seq::empty();
                        }
                        sat.next = 0;
                        sat.phase = Phase::Finished;
                    },
                    _ => {
                        sat.note(check);
                    },
                }
            },
            _ => {},
        }
        sat.request()
    }
}


/// The kinds of collider that a body can have.
#[derive(Clone, Copy, PartialEq, Eq, Structural, Debug)]
pub enum ColliderKind {
    HalfSpace,
    Mesh,
    Sphere,
}

/// How a pair of colliders is tested.
#[derive(Clone, Copy, PartialEq, Eq, Structural, Debug)]
pub enum Pairing {
    /// A half-space against a mesh. `swapped` tells that the mesh is the
    /// first body of the pair and the half-space the second.
    HalfSpaceMesh { swapped: bool },
    /// Two meshes, by the search for a separating axis.
    MeshMesh,
    /// The pair is not tested: it never collides.
    Nothing,
}

/// How a pair of colliders of the kinds `a` and `b` is tested.
pub open spec fn spec_pairing(a: ColliderKind, b: ColliderKind) -> Pairing {
    match (a, b) {
        (ColliderKind::HalfSpace, ColliderKind::Mesh) => Pairing::HalfSpaceMesh { swapped: false },
        (ColliderKind::Mesh, ColliderKind::HalfSpace) => Pairing::HalfSpaceMesh { swapped: true },
        (ColliderKind::Mesh, ColliderKind::Mesh) => Pairing::MeshMesh,
        _ => Pairing::Nothing,
    }
}

/// How a pair of colliders of the kinds `a` and `b` is tested.
pub fn pairing(a: ColliderKind, b: ColliderKind) -> (how: Pairing)
    ensures
        how == spec_pairing(a, b),
{
    match (a, b) {
        (ColliderKind::HalfSpace, ColliderKind::Mesh) => Pairing::HalfSpaceMesh { swapped: false },
        (ColliderKind::Mesh, ColliderKind::HalfSpace) => Pairing::HalfSpaceMesh { swapped: true },
        (ColliderKind::Mesh, ColliderKind::Mesh) => Pairing::MeshMesh,
        _ => Pairing::Nothing,
    }
}

/// The key under which a pair is tested when its two bodies are tested in
/// the order that `how` asks for.
pub fn pairing_key(key: PairKey, how: Pairing) -> (tested: PairKey)
    ensures
        tested == if how == (Pairing::HalfSpaceMesh { swapped: true }) {
            (key.1, key.0)
        } else {
            key
        },
{
    match how {
        Pairing::HalfSpaceMesh { swapped: true } => (key.1, key.0),
        _ => key,
    }
}

/// The contacts of a set of points with something they may have entered:
/// the points that have, and the deepest of them.
#[derive(Debug)]
pub struct Contacts {
    pub points: Vec<usize>,
    pub deepest: usize,
}

/// The points whose depth is above `zero`, in their order, and the first
/// of the deepest among them; `None` if no point has such a depth. Depths
/// are given by keys that are ordered as the depths are, and `zero` is the
/// key of no depth.
pub fn contacts_below(depths: &Vec<i32>, zero: i32) -> (contacts: Option<Contacts>)
    ensures
        match contacts {
            Some(c) => {
                &&& is_first_greatest(depths@, zero, c.deepest as int)
                &&& c.points@.len() >= 1
                &&& forall|k: int|
                    0 <= k < c.points@.len() ==> (#[trigger] c.points@[k]) < depths@.len()
                        && depths@[c.points@[k] as int] > zero
                &&& forall|k: int, l: int| 0 <= k < l < c.points@.len() ==> c.points@[k] < c.points@[l]
                &&& forall|j: int|
                    0 <= j < depths@.len() && depths@[j] > zero ==> c.points@.contains(j as usize)
            },
            None => forall|j: int| 0 <= j < depths@.len() ==> depths@[j] <= zero,
        },
{
    match first_greatest(depths, zero) {
        Some(deepest) => {
            let points = positions_above(depths, zero);
            assert(points@.contains(deepest));
            Some(Contacts { points, deepest })
        },
        None => None,
    }
}

/// The cell among `candidates` whose key in `alignment` is the least, the
/// first of them if there are several; `None` if there are no candidates.
/// The keys are ordered as the inner products of the cells' normals with
/// the normal of the contact are: the cell of the least key is the one most
/// opposed to the contact.
pub fn incident_cell(candidates: &IndexList, alignment: &Vec<i32>) -> (cell: Option<usize>)
    requires
        alignment@.len() == candidates@.len(),
    ensures
        match cell {
            Some(c) => exists|i: int| is_first_smallest(alignment@, i) && c == candidates@[i],
            None => candidates@.len() == 0,
        },
{
    match first_smallest(alignment) {
        Some(i) => Some(candidates.get(i)),
        None => None,
    }
}


/// What a search over the axes has done, from the cache `start` on: it
/// has tried the axes in their order and got `checks` for them. Either the
/// last of them, and none before it, separates the meshes, and then there is
/// no contact and the cache was given the axis; or all axes were tried, and
/// then the contact is that of the first overlap of least penetration and
/// the cache is as it was.
pub open spec fn axes_searched<C: Fn(ContactAxis) -> AxisCheck>(
    start: Seq<(PairKey, AxisBits)>,
    end: Seq<(PairKey, AxisBits)>,
    capacity: nat,
    key: PairKey,
    cells_a: usize,
    cells_b: usize,
    check: C,
    contact: Option<ContactData>,
    checks: Seq<AxisCheck>,
) -> bool {
    &&& checks.len() <= cells_a + cells_b
    &&& forall|i: int|
        0 <= i < checks.len() ==> call_ensures(check, (axis_at(cells_a, i),), #[trigger] checks[i])
    &&& forall|i: int| 0 <= i < checks.len() - 1 ==> !((#[trigger] checks[i]) is NoIntersection)
    &&& if checks.len() > 0 && checks.last() is NoIntersection {
        &&& contact is None
        &&& end == entries_after_put(start, capacity, key, checks.last()->normal)
    } else {
        &&& checks.len() == cells_a + cells_b
        &&& contact == best_of(checks).1
        &&& end == start
    }
}

/// What a search for a pair has done, given what its caller found: the
/// bounding spheres were `disjoint`; the axis from the cache, if there was
/// one, still `separates` the meshes or not; and the axes that were tried
/// showed `checks`. Disjoint spheres end the search without a contact and
/// leave the cache alone. An axis from the cache is forgotten, and ends the
/// search without a contact if it still separates the meshes. Otherwise the
/// axes are searched.
pub open spec fn search_explained<B: Fn() -> bool, R: Fn(AxisBits) -> bool, C: Fn(ContactAxis) -> AxisCheck>(
    start: Seq<(PairKey, AxisBits)>,
    end: Seq<(PairKey, AxisBits)>,
    capacity: nat,
    key: PairKey,
    cells_a: usize,
    cells_b: usize,
    bounds: B,
    recheck: R,
    check: C,
    contact: Option<ContactData>,
    disjoint: bool,
    separates: bool,
    checks: Seq<AxisCheck>,
) -> bool {
    &&& call_ensures(bounds, (), disjoint)
    &&& if disjoint {
        contact is None && end == start
    } else {
        match lookup(start, key) {
            Some(axis) => {
                &&& call_ensures(recheck, (axis,), separates)
                &&& if separates {
                    contact is None && end == without(start, key)
                } else {
                    axes_searched(
                        without(start, key),
                        end,
                        capacity,
                        key,
                        cells_a,
                        cells_b,
                        check,
                        contact,
                        checks,
                    )
                }
            },
            None => axes_searched(
                start,
                end,
                capacity,
                key,
                cells_a,
                cells_b,
                check,
                contact,
                checks,
            ),
        }
    }
}

/// A search for a pair has gone as `search_explained` describes, for
/// something that its caller found.
pub open spec fn searched<B: Fn() -> bool, R: Fn(AxisBits) -> bool, C: Fn(ContactAxis) -> AxisCheck>(
    start: Seq<(PairKey, AxisBits)>,
    end: Seq<(PairKey, AxisBits)>,
    capacity: nat,
    key: PairKey,
    cells_a: usize,
    cells_b: usize,
    bounds: B,
    recheck: R,
    check: C,
    contact: Option<ContactData>,
) -> bool {
    exists|disjoint: bool, separates: bool, checks: Seq<AxisCheck>| #[trigger]
        search_explained(
            start,
            end,
            capacity,
            key,
            cells_a,
            cells_b,
            bounds,
            recheck,
            check,
            contact,
            disjoint,
            separates,
            checks,
        )
}

impl CollisionDetection {
    /// Searches for a separating axis between the two meshes of the pair
    /// `key`, which have `cells_a` and `cells_b` cells, and returns the
    /// contact of the least overlap if there is none. `bounds` tells whether
    /// the bounding spheres are disjoint, `recheck` whether an axis from the
    /// cache still separates the meshes, and `check` what the projection
    /// onto an axis shows.
    pub fn mesh_sat<B, R, C>(
        &mut self,
        key: PairKey,
        cells_a: usize,
        cells_b: usize,
        bounds: B,
        recheck: R,
        check: C,
    ) -> (contact: Option<ContactData>) where
        B: Fn() -> bool,
        R: Fn(AxisBits) -> bool,
        C: Fn(ContactAxis) -> AxisCheck,

        requires
            old(self).valid(),
            cells_a + cells_b <= usize::MAX,
            call_requires(bounds, ()),
            forall|axis: AxisBits| call_requires(recheck, (axis,)),
            forall|axis: ContactAxis| call_requires(check, (axis,)),
        ensures
            final(self).valid(),
            final(self).capacity() == old(self).capacity(),
            searched(
                old(self)@,
                final(self)@,
                old(self).capacity(),
                key,
                cells_a,
                cells_b,
                bounds,
                recheck,
                check,
                contact,
            ),
    {
        let ghost start = self@;
        let ghost capacity = self.capacity();
        let mut sat = self.begin(key, cells_a, cells_b).unwrap();
        let disjoint = bounds();
        let mut request = self.advance(&mut sat, SatReply::Bounds { disjoint });
        if disjoint {
            assert(search_explained(
                start,
                self@,
                capacity,
                key,
                cells_a,
                cells_b,
                bounds,
                recheck,
                check,
                None,
                true,
                false,
                Seq::empty(),
            ));
            return None;
        }
        let ghost mut separates = false;
        if let SatRequest::RecheckAxis { cached } = request {
            let still = recheck(cached);
            proof {
                separates = still;
            }
            request = self.advance(&mut sat, SatReply::Recheck { separates: still });
            proof {
                lemma_forget_after_get(start, key);
            }
            if still {
                assert(search_explained(
                    start,
                    self@,
                    capacity,
                    key,
                    cells_a,
                    cells_b,
                    bounds,
                    recheck,
                    check,
                    None,
                    false,
                    true,
                    Seq::empty(),
                ));
                return None;
            }
        }
        let ghost base = self@;
        let ghost mut seen: Seq<AxisCheck> = Seq::empty();
        let ghost mut cut = false;
        assert(sat.checks@ =~= seen);
        loop
            invariant
                self.valid(),
                self.capacity() == capacity,
                sat.inv(),
                sat.key == key,
                sat.cells_a == cells_a,
                sat.cells_b == cells_b,
                request == sat.pending(),
                sat.phase == Phase::Axes || sat.phase == Phase::Finished,
                forall|axis: ContactAxis| call_requires(check, (axis,)),
                seen.len() <= cells_a + cells_b,
                forall|i: int|
                    0 <= i < seen.len() ==> call_ensures(
                        check,
                        (axis_at(cells_a, i),),
                        #[trigger] seen[i],
                    ),
                forall|i: int| 0 <= i < seen.len() - 1 ==> !((#[trigger] seen[i]) is NoIntersection),
                cut == (seen.len() > 0 && seen.last() is NoIntersection),
                cut ==> sat.phase == Phase::Finished && sat.contact is None && self@
                    == entries_after_put(base, capacity, key, seen.last()->normal),
                !cut ==> sat.checks@ == seen && self@ == base && (sat.phase == Phase::Finished
                    ==> seen.len() == cells_a + cells_b),
            ensures
                sat.phase == Phase::Finished,
            decreases cells_a + cells_b - seen.len(), if sat.phase == Phase::Finished { 0int } else { 1int },
        {
            match request {
                SatRequest::CheckAxis { axis } => {
                    let found = check(axis);
                    request = self.advance(&mut sat, SatReply::Axis { check: found });
                    proof {
                        seen = seen.push(found);
                        cut = found is NoIntersection;
                    }
                },
                _ => {
                    break;
                },
            }
        }
        let contact = sat.contact;
        proof {
            assert(axes_searched(base, self@, capacity, key, cells_a, cells_b, check, contact, seen));
            assert(search_explained(
                start,
                self@,
                capacity,
                key,
                cells_a,
                cells_b,
                bounds,
                recheck,
                check,
                contact,
                false,
                false,
                seen,
            ));
        }
        contact
    }
}


/// What a search over axes that show `scene` ends with: no contact if one
/// of the axes separates the meshes, else the contact of the first overlap
/// of least penetration.
pub open spec fn outcome(scene: Seq<AxisCheck>) -> Option<ContactData> {
    if exists|i: int| 0 <= i < scene.len() && (#[trigger] scene[i]) is NoIntersection {
        None
    } else {
        best_of(scene).1
    }
}

/// A search that is asked twice about the same meshes at rest gives the
/// same answer twice, whatever the cache holds.
///
/// Let the tests that the search asks for be functions of what is tested:
/// the bounding spheres are `disjoint` or not, the axes show `scene`, and an
/// axis from the cache is found to separate the meshes only if one of the
/// axes of the search separates them too. Then the contact that the search
/// returns depends on `disjoint` and `scene` alone: it is none if the
/// spheres are disjoint, and else what `outcome` says.
pub proof fn lemma_search_depends_on_scene_alone<
    B: Fn() -> bool,
    R: Fn(AxisBits) -> bool,
    C: Fn(ContactAxis) -> AxisCheck,
>(
    start: Seq<(PairKey, AxisBits)>,
    end: Seq<(PairKey, AxisBits)>,
    capacity: nat,
    key: PairKey,
    cells_a: usize,
    cells_b: usize,
    bounds: B,
    recheck: R,
    check: C,
    contact: Option<ContactData>,
    disjoint: bool,
    scene: Seq<AxisCheck>,
)
    requires
        searched(start, end, capacity, key, cells_a, cells_b, bounds, recheck, check, contact),
        scene.len() == cells_a + cells_b,
        forall|d: bool| call_ensures(bounds, (), d) ==> d == disjoint,
        forall|i: int, found: AxisCheck|
            0 <= i < scene.len() && #[trigger] call_ensures(check, (axis_at(cells_a, i),), found)
                ==> found == scene[i],
        forall|axis: AxisBits|
            call_ensures(recheck, (axis,), true) ==> exists|i: int|
                0 <= i < scene.len() && (#[trigger] scene[i]) is NoIntersection,
    ensures
        contact == if disjoint {
            None
        } else {
            outcome(scene)
        },
{
    let (d, separates, checks) = choose|d: bool, separates: bool, checks: Seq<AxisCheck>| #[trigger]
        search_explained(
            start,
            end,
            capacity,
            key,
            cells_a,
            cells_b,
            bounds,
            recheck,
            check,
            contact,
            d,
            separates,
            checks,
        );
    assert(d == disjoint);
    if !disjoint {
        let cached = lookup(start, key);
        if cached is Some && separates {
            assert(call_ensures(recheck, (cached->Some_0,), true));
        } else {
            let base = if cached is Some { without(start, key) } else { start };
            assert(axes_searched(base, end, capacity, key, cells_a, cells_b, check, contact, checks));
            assert forall|i: int| 0 <= i < checks.len() implies #[trigger] checks[i] == scene[i] by {
                assert(call_ensures(check, (axis_at(cells_a, i),), checks[i]));
            }
            if checks.len() > 0 && checks.last() is NoIntersection {
                assert(scene[checks.len() - 1] is NoIntersection);
            } else {
                assert(checks =~= scene);
                assert forall|i: int| 0 <= i < scene.len() implies !((
                #[trigger] scene[i]) is NoIntersection) by {
                    if i < checks.len() - 1 {
                        assert(!(checks[i] is NoIntersection));
                    }
                }
            }
        }
    }
}

/// A search over axes that show `scene` ends as `outcome` says.
pub proof fn lemma_axes_outcome<C: Fn(ContactAxis) -> AxisCheck>(
    start: Seq<(PairKey, AxisBits)>,
    end: Seq<(PairKey, AxisBits)>,
    capacity: nat,
    key: PairKey,
    cells_a: usize,
    cells_b: usize,
    check: C,
    contact: Option<ContactData>,
    checks: Seq<AxisCheck>,
    scene: Seq<AxisCheck>,
)
    requires
        axes_searched(start, end, capacity, key, cells_a, cells_b, check, contact, checks),
        scene.len() == cells_a + cells_b,
        forall|i: int, found: AxisCheck|
            0 <= i < scene.len() && #[trigger] call_ensures(check, (axis_at(cells_a, i),), found)
                ==> found == scene[i],
    ensures
        contact == outcome(scene),
        (checks.len() > 0 && checks.last() is NoIntersection) == (exists|i: int|
            0 <= i < scene.len() && (#[trigger] scene[i]) is NoIntersection),
{
    assert forall|i: int| 0 <= i < checks.len() implies #[trigger] checks[i] == scene[i] by {
        assert(call_ensures(check, (axis_at(cells_a, i),), checks[i]));
    }
    if checks.len() > 0 && checks.last() is NoIntersection {
        assert(scene[checks.len() - 1] is NoIntersection);
    } else {
        assert(checks =~= scene);
        assert forall|i: int| 0 <= i < scene.len() implies !((#[trigger] scene[i]) is NoIntersection) by {
            if i < checks.len() - 1 {
                assert(!(checks[i] is NoIntersection));
            }
        }
    }
}

/// Two searches in a row for the same meshes at rest give the same answer,
/// unless the first has ended on the word of the cache: let the first
/// search, from the cache `start` to the cache `middle`, have gone as
/// `search_explained` says for `disjoint`, `separates` and `checks`, and
/// not have ended because an axis from the cache still separated the
/// meshes. Then the second search, from `middle`, returns what the first
/// returned, whatever the test of an axis from the cache says.
pub proof fn lemma_search_again<
    B: Fn() -> bool,
    R: Fn(AxisBits) -> bool,
    C: Fn(ContactAxis) -> AxisCheck,
>(
    start: Seq<(PairKey, AxisBits)>,
    middle: Seq<(PairKey, AxisBits)>,
    end: Seq<(PairKey, AxisBits)>,
    capacity: nat,
    key: PairKey,
    cells_a: usize,
    cells_b: usize,
    bounds: B,
    recheck: R,
    check: C,
    first: Option<ContactData>,
    second: Option<ContactData>,
    disjoint: bool,
    separates: bool,
    checks: Seq<AxisCheck>,
    scene: Seq<AxisCheck>,
)
    requires
        search_explained(
            start,
            middle,
            capacity,
            key,
            cells_a,
            cells_b,
            bounds,
            recheck,
            check,
            first,
            disjoint,
            separates,
            checks,
        ),
        disjoint || lookup(start, key) is None || !separates,
        searched(middle, end, capacity, key, cells_a, cells_b, bounds, recheck, check, second),
        scene.len() == cells_a + cells_b,
        forall|d: bool| call_ensures(bounds, (), d) ==> d == disjoint,
        forall|i: int, found: AxisCheck|
            0 <= i < scene.len() && #[trigger] call_ensures(check, (axis_at(cells_a, i),), found)
                ==> found == scene[i],
    ensures
        first == second,
{
    let (d2, s2, checks2) = choose|d2: bool, s2: bool, checks2: Seq<AxisCheck>| #[trigger]
        search_explained(
            middle,
            end,
            capacity,
            key,
            cells_a,
            cells_b,
            bounds,
            recheck,
            check,
            second,
            d2,
            s2,
            checks2,
        );
    assert(d2 == disjoint);
    if !disjoint {
        let cached = lookup(start, key);
        let base = if cached is Some {
            without(start, key)
        } else {
            start
        };
        if cached is Some {
            lemma_forgotten(start, key);
        }
        assert(lookup(base, key) is None);
        lemma_axes_outcome(base, middle, capacity, key, cells_a, cells_b, check, first, checks, scene);
        let again = lookup(middle, key);
        if checks.len() > 0 && checks.last() is NoIntersection {
            lemma_put_found(base, capacity, key, checks.last()->normal);
            assert(first is None);
        } else {
            assert(middle == base);
            assert(again is None);
        }
        if again is Some && s2 {
            assert(second is None);
        } else {
            let base2 = if again is Some {
                without(middle, key)
            } else {
                middle
            };
            lemma_axes_outcome(
                base2,
                end,
                capacity,
                key,
                cells_a,
                cells_b,
                check,
                second,
                checks2,
                scene,
            );
        }
    }
}

} // verus!
