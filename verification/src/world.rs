//! One tick of the world, as far as it is a matter of order and counting:
//! which pairs of bodies are tested, how often each body collides, and in
//! which order constraints are built and solved and bodies are stepped.
//!
//! The caller does the work that each action names and then asks for the
//! next action.

use vstd::prelude::*;
use std::collections::HashMap;

verus! {

/// How often the body `body` is counted in `tally`: bodies without a
/// count are counted zero times.
pub open spec fn count_in(tally: Map<usize, usize>, body: usize) -> usize {
    if tally.contains_key(body) {
        tally[body]
    } else {
        0
    }
}

/// How often the solver goes over the constraints of a tick.
pub const SOLVER_ITERS: usize = 20;

/// The part of a tick that is being worked on.
#[derive(Clone, Copy, PartialEq, Eq, Structural, Debug)]
pub enum TickPhase {
    Detect,
    Build,
    Solve,
    Step,
    Done,
}

/// What the caller is to do next. Bodies are named by their position in
/// the list of bodies of this tick, collisions and constraints by their
/// position in the order in which the collisions were found.
#[derive(Clone, Copy, PartialEq, Eq, Structural, Debug)]
pub enum TickAction {
    /// Test the bodies `a` and `b` for a collision.
    Detect { a: usize, b: usize },
    /// Build the constraint of a collision between `a` and `b`, of which
    /// `a` is in `weight_a` collisions of this tick and `b` in `weight_b`.
    Build { collision: usize, a: usize, b: usize, weight_a: usize, weight_b: usize },
    /// Solve a constraint once, on the two bodies `a` and `b`.
    Solve { constraint: usize, a: usize, b: usize },
    /// Integrate a body.
    Step { body: usize },
    /// The tick is over.
    Done,
}

/// Number of the pairs of `collisions` that `body` is part of.
pub open spec fn occurrences(collisions: Seq<(usize, usize)>, body: usize) -> nat
    decreases collisions.len(),
{
    if collisions.len() == 0 {
        0
    } else {
        occurrences(collisions.drop_last(), body) + if collisions.last().0 == body
            || collisions.last().1 == body {
            1nat
        } else {
            0nat
        }
    }
}

/// No body is part of more pairs than there are pairs.
pub proof fn lemma_occurrences_bound(collisions: Seq<(usize, usize)>, body: usize)
    ensures
        occurrences(collisions, body) <= collisions.len(),
    decreases collisions.len(),
{
    if collisions.len() > 0 {
        lemma_occurrences_bound(collisions.drop_last(), body);
    }
}

/// The pair `p` comes before the pair `q` in the order in which pairs are
/// tested.
pub open spec fn pair_before(p: (usize, usize), q: (usize, usize)) -> bool {
    p.0 < q.0 || (p.0 == q.0 && p.1 < q.1)
}

/// The state of one tick.
#[derive(Debug)]
pub struct Tick {
    pub bodies: usize,
    pub phase: TickPhase,
    pub a: usize,
    pub b: usize,
    pub iteration: usize,
    pub cursor: usize,
    pub collisions: Vec<(usize, usize)>,
    pub tally: HashMap<usize, usize>,
}

impl Tick {
    /// What holds of a tick at every step: the collisions found are pairs
    /// of two different bodies in the order in which pairs are tested, all
    /// before the pair that is tested next; every body's count is the number
    /// of collisions it is part of; and the phase has work left.
    pub open spec fn inv(&self) -> bool {
        &&& self.counted()
        &&& match self.phase {
            TickPhase::Detect => {
                &&& self.a < self.b < self.bodies
                &&& forall|k: int|
                    0 <= k < self.collisions@.len() ==> pair_before(
                        #[trigger] self.collisions@[k],
                        (self.a, self.b),
                    )
            },
            TickPhase::Build => self.cursor < self.collisions@.len(),
            TickPhase::Solve => self.cursor < self.collisions@.len() && self.iteration
                < SOLVER_ITERS,
            TickPhase::Step => self.cursor < self.bodies,
            TickPhase::Done => true,
        }
    }

    /// The collisions found are pairs of two different bodies in the order
    /// in which pairs are tested, and every body's count is the number of
    /// collisions it is part of.
    pub open spec fn counted(&self) -> bool {
        &&& forall|k: int|
            0 <= k < self.collisions@.len() ==> (#[trigger] self.collisions@[k]).0
                < self.collisions@[k].1 && self.collisions@[k].1 < self.bodies
        &&& forall|k: int, l: int|
            0 <= k < l < self.collisions@.len() ==> pair_before(
                self.collisions@[k],
                self.collisions@[l],
            )
        &&& forall|body: usize|
            body < self.bodies ==> #[trigger] count_in(self.tally@, body) == occurrences(
                self.collisions@,
                body,
            )
    }

    /// What the tick is waiting for.
    pub open spec fn pending(&self) -> TickAction {
        match self.phase {
            TickPhase::Detect => TickAction::Detect { a: self.a, b: self.b },
            TickPhase::Build => TickAction::Build {
                collision: self.cursor,
                a: self.collisions@[self.cursor as int].0,
                b: self.collisions@[self.cursor as int].1,
                weight_a: count_in(self.tally@, self.collisions@[self.cursor as int].0),
                weight_b: count_in(self.tally@, self.collisions@[self.cursor as int].1),
            },
            TickPhase::Solve => TickAction::Solve {
                constraint: self.cursor,
                a: self.collisions@[self.cursor as int].0,
                b: self.collisions@[self.cursor as int].1,
            },
            TickPhase::Step => TickAction::Step { body: self.cursor },
            TickPhase::Done => TickAction::Done,
        }
    }

    /// The phase that follows the detection, given how many collisions
    /// were found and how many bodies there are.
    pub open spec fn after_detect(collisions: nat, bodies: usize) -> TickPhase {
        if collisions > 0 {
            TickPhase::Build
        } else if bodies > 0 {
            TickPhase::Step
        } else {
            TickPhase::Done
        }
    }

    /// A tick for `bodies` bodies. It begins with the first pair of
    /// bodies; without a pair it begins with the first body, and without a
    /// body it is over.
    pub fn new(bodies: usize) -> (tick: Tick)
        ensures
            tick.inv(),
            tick.bodies == bodies,
            tick.collisions@.len() == 0,
            tick.phase == if bodies >= 2 {
                TickPhase::Detect
            } else {
                Self::after_detect(0, bodies)
            },
            tick.phase == TickPhase::Detect ==> tick.a == 0 && tick.b == 1,
            tick.cursor == 0,
            tick.iteration == 0,
    {
        let tally: HashMap<usize, usize> = HashMap::new();
        let phase = if bodies >= 2 {
            TickPhase::Detect
        } else if bodies > 0 {
            TickPhase::Step
        } else {
            TickPhase::Done
        };
        Tick { bodies, phase, a: 0, b: 1, iteration: 0, cursor: 0, collisions: Vec::new(), tally }
    }

    /// How often the body `body` has been counted.
    pub fn count(&self, body: usize) -> (n: usize)
        ensures
            n == count_in(self.tally@, body),
    {
        broadcast use vstd::std_specs::hash::group_hash_axioms;

        match self.tally.get(&body) {
            Some(n) => *n,
            None => 0,
        }
    }

    /// What the tick is waiting for.
    pub fn action(&self) -> (action: TickAction)
        requires
            self.inv(),
        ensures
            action == self.pending(),
            match action {
                TickAction::Detect { a, b } => a < b < self.bodies,
                TickAction::Build { collision, a, b, weight_a, weight_b } => {
                    &&& a < b < self.bodies
                    &&& weight_a == occurrences(self.collisions@, a)
                    &&& weight_b == occurrences(self.collisions@, b)
                    &&& weight_a >= 1
                    &&& weight_b >= 1
                },
                TickAction::Solve { constraint, a, b } => a < b < self.bodies,
                TickAction::Step { body } => body < self.bodies,
                TickAction::Done => true,
            },
    {
        match self.phase {
            TickPhase::Detect => TickAction::Detect { a: self.a, b: self.b },
            TickPhase::Build => {
                let (a, b) = self.collisions[self.cursor];
                proof {
                    lemma_occurs_where_listed(self.collisions@, self.cursor as int);
                }
                TickAction::Build {
                    collision: self.cursor,
                    a,
                    b,
                    weight_a: self.count(a),
                    weight_b: self.count(b),
                }
            },
            TickPhase::Solve => {
                let (a, b) = self.collisions[self.cursor];
                TickAction::Solve { constraint: self.cursor, a, b }
            },
            TickPhase::Step => TickAction::Step { body: self.cursor },
            TickPhase::Done => TickAction::Done,
        }
    }

    /// Takes note that the pending action was done, and returns the next
    /// one. `contacts` is the number of contact points that the test of a
    /// pair has found; it counts only when a pair was tested.
    ///
    /// A pair with contact points is a collision. After the last pair the
    /// constraints of the collisions are built in the order in which they
    /// were found, then solved in that order `SOLVER_ITERS` times over, and
    /// then every body is stepped.
    pub fn advance(&mut self, contacts: usize) -> (action: TickAction)
        requires
            old(self).inv(),
        ensures
            final(self).inv(),
            final(self).bodies == old(self).bodies,
            action == final(self).pending(),
            match old(self).phase {
                TickPhase::Detect => {
                    let a = old(self).a;
                    let b = old(self).b;
                    &&& final(self).collisions@ == if contacts > 0 {
                        old(self).collisions@.push((a, b))
                    } else {
                        old(self).collisions@
                    }
                    &&& if b + 1 < old(self).bodies {
                        final(self).phase == TickPhase::Detect && final(self).a == a && final(self).b
                            == b + 1
                    } else if a + 2 < old(self).bodies {
                        final(self).phase == TickPhase::Detect && final(self).a == a + 1 && final(self).b == a + 2
                    } else {
                        final(self).phase == Self::after_detect(
                            final(self).collisions@.len(),
                            old(self).bodies,
                        ) && final(self).cursor == 0 && final(self).iteration == 0
                    }
                },
                TickPhase::Build => {
                    &&& final(self).collisions@ == old(self).collisions@
                    &&& final(self).iteration == 0
                    &&& if old(self).cursor + 1 < old(self).collisions@.len() {
                        final(self).phase == TickPhase::Build && final(self).cursor == old(self).cursor
                            + 1
                    } else {
                        final(self).phase == TickPhase::Solve && final(self).cursor == 0
                    }
                },
                TickPhase::Solve => {
                    &&& final(self).collisions@ == old(self).collisions@
                    &&& if old(self).cursor + 1 < old(self).collisions@.len() {
                        final(self).phase == TickPhase::Solve && final(self).cursor == old(self).cursor
                            + 1 && final(self).iteration == old(self).iteration
                    } else if old(self).iteration + 1 < SOLVER_ITERS {
                        final(self).phase == TickPhase::Solve && final(self).cursor == 0 && final(self).iteration == old(self).iteration + 1
                    } else {
                        final(self).phase == TickPhase::Step && final(self).cursor == 0
                    }
                },
                TickPhase::Step => {
                    &&& final(self).collisions@ == old(self).collisions@
                    &&& if old(self).cursor + 1 < old(self).bodies {
                        final(self).phase == TickPhase::Step && final(self).cursor == old(self).cursor
                            + 1
                    } else {
                        final(self).phase == TickPhase::Done
                    }
                },
                TickPhase::Done => *final(self) == *old(self),
            },
    {
        match self.phase {
            TickPhase::Detect => {
                if contacts > 0 {
                    self.record_collision();
                }
                if self.b + 1 < self.bodies {
                    self.b = self.b + 1;
                } else if self.a + 2 < self.bodies {
                    self.a = self.a + 1;
                    self.b = self.a + 1;
                } else {
                    self.cursor = 0;
                    self.iteration = 0;
                    if self.collisions.len() > 0 {
                        self.phase = TickPhase::Build;
                    } else if self.bodies > 0 {
                        self.phase = TickPhase::Step;
                    } else {
                        self.phase = TickPhase::Done;
                    }
                }
            },
            TickPhase::Build => {
                let total = self.collisions.len();
                self.iteration = 0;
                if self.cursor < total - 1 {
                    self.cursor = self.cursor + 1;
                } else {
                    self.cursor = 0;
                    self.phase = TickPhase::Solve;
                }
            },
            TickPhase::Solve => {
                let total = self.collisions.len();
                if self.cursor < total - 1 {
                    self.cursor = self.cursor + 1;
                } else if self.iteration + 1 < SOLVER_ITERS {
                    self.cursor = 0;
                    self.iteration = self.iteration + 1;
                } else {
                    self.cursor = 0;
                    self.phase = TickPhase::Step;
                }
            },
            TickPhase::Step => {
                if self.cursor + 1 < self.bodies {
                    self.cursor = self.cursor + 1;
                } else {
                    self.phase = TickPhase::Done;
                }
            },
            TickPhase::Done => {},
        }
        self.action()
    }

    /// Records that the pair under test collides: the pair joins the
    /// collisions, and both bodies count one collision more.
    pub fn record_collision(&mut self)
        requires
            old(self).inv(),
            old(self).phase == TickPhase::Detect,
        ensures
            final(self).counted(),
            final(self).bodies == old(self).bodies,
            final(self).phase == old(self).phase,
            final(self).a == old(self).a,
            final(self).b == old(self).b,
            final(self).cursor == old(self).cursor,
            final(self).iteration == old(self).iteration,
            final(self).collisions@ == old(self).collisions@.push((old(self).a, old(self).b)),
    {
        let a = self.a;
        let b = self.b;
        let ghost before = self.collisions@;
        self.collisions.push((a, b));
        let total = self.collisions.len();
        proof {
            assert(self.collisions@.drop_last() =~= before);
            lemma_occurrences_bound(before, a);
            lemma_occurrences_bound(before, b);
            assert(before.len() + 1 == total);
        }
        broadcast use vstd::std_specs::hash::group_hash_axioms;

        let count_a = self.count(a);
        let count_b = self.count(b);
        proof {
            assert(count_in(old(self).tally@, a) == occurrences(before, a));
            assert(count_in(old(self).tally@, b) == occurrences(before, b));
        }
        self.tally.insert(a, count_a + 1);
        self.tally.insert(b, count_b + 1);
        proof {
            assert forall|body: usize| body < self.bodies implies #[trigger] count_in(
                self.tally@,
                body,
            ) == occurrences(self.collisions@, body) by {
                assert(count_in(old(self).tally@, body) == occurrences(before, body));
            }
            assert forall|k: int, l: int| 0 <= k < l < self.collisions@.len() implies pair_before(
                self.collisions@[k],
                self.collisions@[l],
            ) by {
                if l == before.len() {
                    assert(pair_before(before[k], (a, b)));
                } else {
                    assert(pair_before(before[k], before[l]));
                }
            }
        }
    }
}

/// A body that a collision names is part of at least one collision.
pub proof fn lemma_occurs_where_listed(collisions: Seq<(usize, usize)>, k: int)
    requires
        0 <= k < collisions.len(),
    ensures
        occurrences(collisions, collisions[k].0) >= 1,
        occurrences(collisions, collisions[k].1) >= 1,
    decreases collisions.len(),
{
    if k < collisions.len() - 1 {
        lemma_occurs_where_listed(collisions.drop_last(), k);
    }
}

} // verus!
