//! Coset enumeration for groups generated by involutions (Todd–Coxeter,
//! in the variant that scans the relators coset by coset).
//!
//! The enumeration keeps its working table sound: every entry has its
//! reverse entry, the row of a coset that was merged into another is folded
//! into the row of its representative, and the class of every coset is
//! reached from the first coset. What a scan or a coincidence leaves behind
//! descends from what it found: nothing that the table knew is lost. And it
//! keeps the table faithful: nothing is merged that the presentation does
//! not force to be one. Every step holds what the functions of the module
//! `work` say, which give the enumeration as a function of its input.

use vstd::prelude::*;
use vstd::slice::slice_subrange;
use std::collections::HashMap;
use crate::bfs::{connected, leads_to, reachable};
use crate::table::{
    acts, fixes_first, in_range, involutive, is_coset_table, letters_below, merges_least,
    no_empty_word, presentation_fits, rows_of, satisfies, step, walk, words_in_alphabet,
    words_of,
};
use crate::counting::{count_true, lemma_count_bound, lemma_count_update};
use crate::work::{
    is_table_of, put, scan_backward, scan_forward, work_coincide, work_coincidence, work_cosets,
    work_define, work_enumerate, work_first, work_fix, work_fold_entry, work_fold_row,
    work_images, work_merge, work_relators, work_scan, work_scan_from,
};

verus! {

/// Largest number of rows that `coset_table` lets an enumeration define.
/// The enumeration of an infinite group defines rows without end; the
/// limit makes it end, with `TableFull`. The largest table of a regular
/// polytope in four dimensions, that of the edges or faces of the 120-cell
/// and the 600-cell, has 1200 rows.
pub const DEFAULT_COSET_LIMIT: usize = 1048576;

/// Why an enumeration has given no table.
#[derive(Clone, Copy, PartialEq, Eq, Structural, Debug)]
pub enum EnumerationError {
    /// A letter of a relator or of the subgroup is not a generator.
    NotAGenerator,
    /// The rows that the enumeration may define did not suffice.
    TableFull,
}

/// The representative of `c` in the forest `p`, in which every coset points
/// at a coset that is not larger than itself and a representative points at
/// itself.
pub open spec fn root(p: Seq<usize>, c: int) -> int
    decreases c,
{
    if 0 <= c < p.len() && (p[c] as int) < c {
        root(p, p[c] as int)
    } else {
        c
    }
}

/// The flags that tell which cosets are their own representative.
pub open spec fn live_flags(p: Seq<usize>) -> Seq<bool> {
    Seq::new(p.len(), |i: int| p[i] == i)
}

/// Number of cosets that are their own representative.
pub open spec fn live_count(p: Seq<usize>) -> nat {
    count_true(live_flags(p))
}

/// Every coset points at itself or at a smaller coset.
pub open spec fn forest(p: Seq<usize>) -> bool {
    forall|i: int| 0 <= i < p.len() ==> #[trigger] p[i] <= i
}

/// The representative of a coset is a coset of the table, not larger than
/// the coset, and is its own representative.
pub proof fn lemma_root_is_live(p: Seq<usize>, c: int)
    requires
        forest(p),
        0 <= c < p.len(),
    ensures
        0 <= root(p, c) <= c,
        p[root(p, c)] == root(p, c),
        root(p, root(p, c)) == root(p, c),
    decreases c,
{
    if (p[c] as int) < c {
        lemma_root_is_live(p, p[c] as int);
    }
}

/// Pointing a coset directly at its representative changes no
/// representative.
pub proof fn lemma_compress_keeps_roots(p: Seq<usize>, j: int, x: int)
    requires
        forest(p),
        0 <= j < p.len(),
        0 <= x < p.len(),
    ensures
        root(p.update(j, root(p, j) as usize), x) == root(p, x),
    decreases x,
{
    lemma_root_is_live(p, j);
    let m = root(p, j);
    let q = p.update(j, m as usize);
    if x == j {
        if m != j {
            assert(q[m] == p[m]);
            assert(root(q, m) == m);
        }
    } else {
        if (p[x] as int) < x {
            lemma_compress_keeps_roots(p, j, p[x] as int);
        }
    }
}

/// Pointing the representative `t` at a smaller representative `s` moves
/// the cosets of `t` to `s` and leaves every other coset where it was.
pub proof fn lemma_link_moves_class(p: Seq<usize>, s: int, t: int, x: int)
    requires
        forest(p),
        0 <= s < t < p.len(),
        p[s] == s,
        p[t] == t,
        0 <= x < p.len(),
    ensures
        root(p.update(t, s as usize), x) == if root(p, x) == t {
            s
        } else {
            root(p, x)
        },
    decreases x,
{
    let q = p.update(t, s as usize);
    if x == t {
        assert(q[s] == s);
        assert(root(q, s) == s);
    } else {
        if (p[x] as int) < x {
            lemma_link_moves_class(p, s, t, p[x] as int);
        }
    }
}

/// The working table of an enumeration: one row per coset that was ever
/// defined, and for each coset the coset it was merged into.
#[derive(Debug)]
pub struct CosetTable {
    pub num_gens: usize,
    pub table: Vec<Vec<Option<usize>>>,
    pub live_map: Vec<usize>,
    pub limit: usize,
}

impl CosetTable {
    /// The table has between one and `limit` rows of `num_gens` entries,
    /// every entry names a row, and the merge map is a forest.
    pub open spec fn well_formed(&self) -> bool {
        &&& 1 <= self.table@.len() <= self.limit
        &&& self.live_map@.len() == self.table@.len()
        &&& forest(self.live_map@)
        &&& forall|i: int|
            0 <= i < self.table@.len() ==> (#[trigger] self.table@[i])@.len() == self.num_gens
        &&& forall|i: int, g: int|
            0 <= i < self.table@.len() && 0 <= g < self.num_gens ==> match (
            #[trigger] self.table@[i]@[g]) {
                Some(x) => x < self.table@.len(),
                None => true,
            }
    }

    /// A table with the single coset 0 and no entries.
    pub fn init(num_gens: usize, limit: usize) -> (t: CosetTable)
        requires
            limit >= 1,
        ensures
            t.well_formed(),
            t.num_gens == num_gens,
            t.limit == limit,
            t.table@.len() == 1,
            t.live_map@ == seq![0usize],
            forall|g: int| 0 <= g < num_gens ==> t.table@[0]@[g] == None::<usize>,
    {
        let mut table: Vec<Vec<Option<usize>>> = Vec::new();
        table.push(blank_row(num_gens));
        let mut live_map: Vec<usize> = Vec::new();
        live_map.push(0);
        CosetTable { num_gens, table, live_map, limit }
    }

    /// Defines a fresh coset as the image of `coset` under `g`, unless the
    /// table is full. Returns whether the coset was defined.
    pub fn define(&mut self, coset: usize, g: usize) -> (defined: bool)
        requires
            old(self).well_formed(),
            coset < old(self).table@.len(),
            g < old(self).num_gens,
        ensures
            final(self).well_formed(),
            final(self).num_gens == old(self).num_gens,
            final(self).limit == old(self).limit,
            defined == (old(self).table@.len() < old(self).limit),
            !defined ==> *final(self) == *old(self),
            defined ==> {
                let fresh = old(self).table@.len() as int;
                &&& final(self).table@.len() == fresh + 1
                &&& final(self).live_map@ == old(self).live_map@.push(fresh as usize)
                &&& final(self).table@[coset as int]@ == old(self).table@[coset as int]@.update(
                    g as int,
                    Some(fresh as usize),
                )
                &&& final(self).table@[fresh]@ == Seq::new(
                    old(self).num_gens as nat,
                    |k: int| if k == g { Some(coset) } else { None::<usize> },
                )
                &&& forall|i: int|
                    0 <= i < fresh && i != coset ==> final(self).table@[i] == old(self).table@[i]
            },
            final(self).work() == work_define(
                old(self).work(),
                old(self).num_gens as int,
                old(self).limit as int,
                coset as int,
                g as int,
            ),
    {
        let ghost before = *self;
        let fresh = self.table.len();
        if fresh >= self.limit {
            return false;
        }
        let mut row = blank_row(self.num_gens);
        row[g] = Some(coset);
        self.table.push(row);
        self.table[coset][g] = Some(fresh);
        self.live_map.push(fresh);
        assert(final(self).table@[fresh as int]@ =~= Seq::new(
            old(self).num_gens as nat,
            |k: int| if k == g { Some(coset) } else { None::<usize> },
        ));
        proof {
            self.lemma_work_defined(&before, coset as int, g as int);
        }
        true
    }

    /// The representative of `coset`. The cosets passed on the way are
    /// pointed directly at it; no representative changes.
    pub fn rep(&mut self, coset: usize) -> (m: usize)
        requires
            old(self).well_formed(),
            coset < old(self).table@.len(),
        ensures
            final(self).well_formed(),
            final(self).num_gens == old(self).num_gens,
            final(self).limit == old(self).limit,
            final(self).table == old(self).table,
            final(self).live_map@.len() == old(self).live_map@.len(),
            m == root(old(self).live_map@, coset as int),
            m <= coset,
            final(self).live_map@[m as int] == m,
            forall|x: int|
                0 <= x < old(self).live_map@.len() ==> root(final(self).live_map@, x) == root(
                    old(self).live_map@,
                    x,
                ),
            live_flags(final(self).live_map@) == live_flags(old(self).live_map@),
    {
        let mut m = coset;
        while m != self.live_map[m]
            invariant
                self.well_formed(),
                *self == *old(self),
                m < self.live_map@.len(),
                root(self.live_map@, m as int) == root(self.live_map@, coset as int),
            decreases m,
        {
            m = self.live_map[m];
        }
        proof {
            lemma_root_is_live(self.live_map@, coset as int);
        }
        let mut j = coset;
        while j != self.live_map[j]
            invariant
                self.well_formed(),
                self.num_gens == old(self).num_gens,
                self.limit == old(self).limit,
                self.table == old(self).table,
                self.live_map@.len() == old(self).live_map@.len(),
                j < self.live_map@.len(),
                m < self.live_map@.len(),
                m == root(self.live_map@, j as int),
                m == root(old(self).live_map@, coset as int),
                self.live_map@[m as int] == m,
                forall|x: int|
                    0 <= x < old(self).live_map@.len() ==> root(self.live_map@, x) == root(
                        old(self).live_map@,
                        x,
                    ),
                live_flags(self.live_map@) =~= live_flags(old(self).live_map@),
            decreases j,
        {
            let next = self.live_map[j];
            proof {
                let p = self.live_map@;
                assert forall|x: int| 0 <= x < p.len() implies root(p.update(j as int, m), x)
                    == root(p, x) by {
                    lemma_compress_keeps_roots(p, j as int, x);
                }
                lemma_root_is_live(p, j as int);
                assert(root(p, j as int) == root(p, next as int));
            }
            self.live_map[j] = m;
            j = next;
        }
        m
    }

    /// Merges the classes of two cosets: the larger of the two
    /// representatives is pointed at the smaller one and queued, so that its
    /// row can be folded into the row of the smaller one.
    pub fn merge(&mut self, queue: &mut Vec<usize>, coset1: usize, coset2: usize)
        requires
            old(self).well_formed(),
            coset1 < old(self).table@.len(),
            coset2 < old(self).table@.len(),
        ensures
            final(self).well_formed(),
            final(self).num_gens == old(self).num_gens,
            final(self).limit == old(self).limit,
            final(self).table == old(self).table,
            final(self).live_map@.len() == old(self).live_map@.len(),
            ({
                let r1 = root(old(self).live_map@, coset1 as int);
                let r2 = root(old(self).live_map@, coset2 as int);
                let s = if r1 <= r2 { r1 } else { r2 };
                let t = if r1 <= r2 { r2 } else { r1 };
                &&& 0 <= s <= t < old(self).live_map@.len()
                &&& r1 == r2 ==> {
                    &&& final(queue)@ == old(queue)@
                    &&& live_count(final(self).live_map@) == live_count(old(self).live_map@)
                    &&& live_flags(final(self).live_map@) == live_flags(old(self).live_map@)
                }
                &&& r1 != r2 ==> {
                    &&& final(queue)@ == old(queue)@.push(t as usize)
                    &&& live_count(final(self).live_map@) + 1 == live_count(old(self).live_map@)
                    &&& live_flags(final(self).live_map@) == live_flags(old(self).live_map@).update(
                        t,
                        false,
                    )
                }
                &&& forall|x: int|
                    0 <= x < old(self).live_map@.len() ==> root(final(self).live_map@, x) == if root(
                        old(self).live_map@,
                        x,
                    ) == t {
                        s
                    } else {
                        root(old(self).live_map@, x)
                    }
            }),
            forall|u: Seq<Seq<usize>>, phi: Seq<int>|
                #[trigger] old(self).mapped(u, phi) && phi[coset1 as int] == phi[coset2 as int]
                    ==> final(self).mapped(u, phi),
            (final(self).work(), final(queue)@) == work_merge(
                old(self).work(),
                old(queue)@,
                coset1 as int,
                coset2 as int,
            ),
    {
        let ghost entry_state = *self;
        let ghost before = self.live_map@;
        let r1 = self.rep(coset1);
        let ghost first = self.live_map@;
        let r2 = self.rep(coset2);
        let ghost second = self.live_map@;
        proof {
            lemma_root_is_live(before, coset1 as int);
            lemma_root_is_live(before, coset2 as int);
            assert(live_flags(first)[r1 as int] == live_flags(second)[r1 as int]);
            assert(second[r1 as int] == r1);
        }
        if r1 != r2 {
            let s = if r1 <= r2 { r1 } else { r2 };
            let t = if r1 <= r2 { r2 } else { r1 };
            proof {
                assert forall|x: int| 0 <= x < second.len() implies root(second.update(t as int, s), x)
                    == if root(before, x) == t {
                    s as int
                } else {
                    root(before, x)
                } by {
                    lemma_link_moves_class(second, s as int, t as int, x);
                }
                assert(live_flags(second.update(t as int, s)) =~= live_flags(second).update(
                    t as int,
                    false,
                ));
                lemma_count_update(live_flags(second), t as int, false);
            }
            self.live_map[t] = s;
            queue.push(t);
        }
        proof {
            assert forall|u: Seq<Seq<usize>>, phi: Seq<int>|
                #[trigger] entry_state.mapped(u, phi) && phi[coset1 as int]
                    == phi[coset2 as int] implies self.mapped(u, phi) by {
                self.lemma_mapped_merged(&entry_state, u, phi, coset1 as int, coset2 as int);
            }
            let target = work_merge(entry_state.work(), old(queue)@, coset1 as int, coset2 as int);
            assert(self.work().tops =~= target.0.tops);
            assert(self.rows() =~= entry_state.rows());
        }
    }

    /// The coset `c` is its own representative.
    pub open spec fn live(&self, c: int) -> bool {
        self.live_map@[c] == c
    }

    /// The row of the coset `c` has no entries.
    pub open spec fn row_empty(&self, c: int) -> bool {
        forall|g: int| 0 <= g < self.num_gens ==> (#[trigger] self.table@[c]@[g]) is None
    }

    /// The coset `d` is its own representative, or it waits in `queue` for
    /// its row to be folded, or its row is folded, or it is the coset
    /// `current` whose row is being folded and has no entries left below
    /// `upto`.
    pub open spec fn parked(&self, queue: Seq<usize>, current: int, upto: int, d: int) -> bool {
        ||| self.live(d)
        ||| queue.contains(d as usize)
        ||| self.row_empty(d)
        ||| (d == current && forall|h: int| 0 <= h < upto ==> (#[trigger] self.table@[d]@[h]) is None)
    }

    /// The entry of `x` under `g` is `y`, where `x` stands for `a` and `y`
    /// for `b`.
    pub open spec fn holds(&self, x: int, y: int, g: int, a: int, b: int) -> bool {
        &&& 0 <= x < self.table@.len()
        &&& 0 <= y < self.table@.len()
        &&& self.table@[x]@[g] == Some(y as usize)
        &&& root(self.live_map@, x) == root(self.live_map@, a)
        &&& root(self.live_map@, y) == root(self.live_map@, b)
    }

    /// What the table `start` knew of the coset `a` under `g`, this table
    /// knows of the class of `a`: if `start` had an entry, some coset of the
    /// class of `a` has an entry under `g` that lies in the class of what
    /// `start` had.
    pub open spec fn held(&self, start: &CosetTable, a: int, g: int) -> bool {
        match start.table@[a]@[g] {
            Some(b) => exists|x: int, y: int| #[trigger] self.holds(x, y, g, a, b as int),
            None => true,
        }
    }

    /// The representatives of `start` are still in the classes of their
    /// cosets.
    pub open spec fn coarsens(&self, start: &CosetTable) -> bool {
        &&& self.live_map@.len() >= start.live_map@.len()
        &&& forall|x: int|
            0 <= x < start.live_map@.len() ==> root(
                self.live_map@,
                #[trigger] root(start.live_map@, x),
            ) == root(self.live_map@, x)
    }

    /// What holds while the coincidences that began in the table `start`
    /// are processed: every entry has its reverse entry, every merged coset
    /// is parked, and nothing that `start` knew is lost.
    pub open spec fn folding(
        &self,
        start: &CosetTable,
        queue: Seq<usize>,
        current: int,
        upto: int,
    ) -> bool {
        &&& start.well_formed()
        &&& self.well_formed()
        &&& self.num_gens == start.num_gens
        &&& self.limit == start.limit
        &&& self.table@.len() == start.table@.len()
        &&& self.symmetric()
        &&& self.coarsens(start)
        &&& forall|k: int|
            0 <= k < queue.len() ==> (#[trigger] queue[k]) < self.table@.len() && !self.live(
                queue[k] as int,
            )
        &&& forall|d: int|
            0 <= d < self.table@.len() ==> #[trigger] self.parked(queue, current, upto, d)
        &&& forall|a: int, g: int|
            0 <= a < self.table@.len() && 0 <= g < self.num_gens ==> #[trigger] self.held(start, a, g)
    }

    /// Every entry has its reverse entry, and the row of every merged
    /// coset is folded.
    pub open spec fn clean(&self) -> bool {
        &&& self.well_formed()
        &&& self.symmetric()
        &&& forall|d: int|
            0 <= d < self.table@.len() && !self.live(d) ==> #[trigger] self.row_empty(d)
    }

    /// This table knows of the classes of its cosets what the table
    /// `before` knew of the cosets: the classes of `before` have only been
    /// merged, and where `before` had an entry, the representative has the
    /// entry of the representatives.
    pub open spec fn descends(&self, before: &CosetTable) -> bool {
        &&& self.table@.len() >= before.table@.len()
        &&& self.num_gens == before.num_gens
        &&& self.coarsens(before)
        &&& forall|a: int, g: int|
            0 <= a < before.table@.len() && 0 <= g < before.num_gens ==> #[trigger] self.passed(
                before,
                a,
                g,
            )
    }

    /// If `before` had an entry for `a` under `g`, the representative of
    /// `a` has the representative of that entry.
    pub open spec fn passed(&self, before: &CosetTable, a: int, g: int) -> bool {
        match before.table@[a]@[g] {
            Some(b) => self.table@[root(self.live_map@, a)]@[g] == Some(
                root(self.live_map@, b as int) as usize,
            ),
            None => true,
        }
    }

    /// This table is `before` without the entries of `e` and of `f` under
    /// `g`, with the same classes.
    pub open spec fn cleared_from(&self, before: &CosetTable, e: int, f: int, g: int) -> bool {
        &&& self.well_formed()
        &&& self.num_gens == before.num_gens
        &&& self.limit == before.limit
        &&& self.table@.len() == before.table@.len()
        &&& live_flags(self.live_map@) == live_flags(before.live_map@)
        &&& forall|x: int|
            0 <= x < before.live_map@.len() ==> #[trigger] root(self.live_map@, x) == root(
                before.live_map@,
                x,
            )
        &&& forall|c: int, h: int|
            0 <= c < self.table@.len() && 0 <= h < self.num_gens ==> #[trigger] self.table@[c]@[h]
                == if h == g && (c == e || c == f) {
                None
            } else {
                before.table@[c]@[h]
            }
    }

    /// The classes of this table are those of `before`, but that the class
    /// of the representative `t` has joined the class of the representative
    /// `s`, and `t` has joined the queue.
    pub open spec fn merged_from(
        &self,
        before: &CosetTable,
        queue_before: Seq<usize>,
        queue: Seq<usize>,
        s: int,
        t: int,
    ) -> bool {
        &&& self.well_formed()
        &&& self.num_gens == before.num_gens
        &&& self.limit == before.limit
        &&& self.table == before.table
        &&& self.live_map@.len() == before.live_map@.len()
        &&& 0 <= s <= t < before.live_map@.len()
        &&& before.live(s)
        &&& before.live(t)
        &&& forall|x: int|
            0 <= x < before.live_map@.len() ==> #[trigger] root(self.live_map@, x) == if root(
                before.live_map@,
                x,
            ) == t {
                s
            } else {
                root(before.live_map@, x)
            }
        &&& s == t ==> queue == queue_before && live_flags(self.live_map@) == live_flags(
            before.live_map@,
        )
        &&& s != t ==> queue == queue_before.push(t as usize) && live_flags(self.live_map@)
            == live_flags(before.live_map@).update(t, false)
    }

    /// Folding goes on when an entry and its reverse have made way for a
    /// merge: nothing is lost if, after the merge, `wx` and `wy` hold what
    /// the entry of `e` held, and `vx` and `vy` what its reverse held.
    pub proof fn lemma_folded(
        &self,
        start: &CosetTable,
        queue_before: Seq<usize>,
        found: &CosetTable,
        after: &CosetTable,
        queue: Seq<usize>,
        e: int,
        f: int,
        g: int,
        s: int,
        t: int,
        wx: int,
        wy: int,
        vx: int,
        vy: int,
    )
        requires
            self.folding(start, queue_before, e, g),
            0 <= e < self.table@.len(),
            0 <= g < self.num_gens,
            !self.live(e),
            0 <= f < self.table@.len(),
            self.table@[e]@[g] == Some(f as usize),
            found.cleared_from(self, e, f, g),
            after.merged_from(found, queue_before, queue, s, t),
            after.holds(wx, wy, g, e, f),
            after.holds(vx, vy, g, f, e),
        ensures
            after.folding(start, queue, e, g + 1),
            !after.live(e),
    {
        assert(self.reversed(e, g));
        assert(!after.live(e)) by {
            assert(live_flags(self.live_map@)[e] == live_flags(found.live_map@)[e]);
            assert(live_flags(after.live_map@)[e] == false);
        }
        assert(after.symmetric()) by {
            assert forall|c: int, h: int|
                0 <= c < after.table@.len() && 0 <= h < after.num_gens implies #[trigger] after.reversed(
                c,
                h,
            ) by {
                assert(after.table@[c]@[h] == found.table@[c]@[h]);
                if found.table@[c]@[h] is Some {
                    let d = found.table@[c]@[h]->Some_0 as int;
                    assert(self.reversed(c, h));
                    assert(found.table@[d]@[h] == self.table@[d]@[h]);
                }
            }
        }
        assert(after.coarsens(start)) by {
            assert forall|x: int| 0 <= x < start.live_map@.len() implies root(
                after.live_map@,
                #[trigger] root(start.live_map@, x),
            ) == root(after.live_map@, x) by {
                lemma_root_is_live(start.live_map@, x);
                let r = root(start.live_map@, x);
                assert(root(self.live_map@, r) == root(self.live_map@, x));
                assert(root(found.live_map@, r) == root(self.live_map@, r));
                assert(root(found.live_map@, x) == root(self.live_map@, x));
            }
        }
        assert forall|k: int| 0 <= k < queue.len() implies (#[trigger] queue[k]) < after.table@.len()
            && !after.live(queue[k] as int) by {
            if k < queue_before.len() {
                assert(queue[k] == queue_before[k]);
                let d = queue_before[k] as int;
                assert(live_flags(self.live_map@)[d] == live_flags(found.live_map@)[d]);
                assert(live_flags(after.live_map@)[d] == false);
            } else {
                assert(live_flags(after.live_map@)[t] == false);
            }
        }
        assert forall|d: int| 0 <= d < after.table@.len() implies #[trigger] after.parked(
            queue,
            e,
            g + 1,
            d,
        ) by {
            assert(self.parked(queue_before, e, g, d));
            assert(live_flags(self.live_map@)[d] == live_flags(found.live_map@)[d]);
            if self.live(d) {
                if d == t && s != t {
                    assert(queue[queue_before.len() as int] == t);
                } else {
                    assert(live_flags(after.live_map@)[d] == live_flags(found.live_map@)[d]);
                }
            } else if queue_before.contains(d as usize) {
                let k = choose|k: int| 0 <= k < queue_before.len() && queue_before[k] == d as usize;
                assert(queue[k] == d as usize);
            } else if self.row_empty(d) {
                assert forall|h: int| 0 <= h < after.num_gens implies (
                #[trigger] after.table@[d]@[h]) is None by {
                    assert(self.table@[d]@[h] is None);
                    assert(after.table@[d]@[h] == found.table@[d]@[h]);
                }
            } else {
                assert forall|h: int| 0 <= h < g + 1 implies (#[trigger] after.table@[d]@[h]) is None by {
                    assert(after.table@[d]@[h] == found.table@[d]@[h]);
                    if h < g {
                        assert(self.table@[d]@[h] is None);
                    }
                }
            }
        }
        assert forall|a: int, h: int|
            0 <= a < after.table@.len() && 0 <= h < after.num_gens implies #[trigger] after.held(
            start,
            a,
            h,
        ) by {
            assert(self.held(start, a, h));
            if start.table@[a]@[h] is Some {
                let b = start.table@[a]@[h]->Some_0 as int;
                let (x, y) = choose|x: int, y: int| #[trigger] self.holds(x, y, h, a, b);
                assert(self.holds(x, y, h, a, b));
                assert(root(found.live_map@, x) == root(self.live_map@, x));
                assert(root(found.live_map@, y) == root(self.live_map@, y));
                assert(root(found.live_map@, a) == root(self.live_map@, a));
                assert(root(found.live_map@, b) == root(self.live_map@, b));
                assert(root(found.live_map@, e) == root(self.live_map@, e));
                assert(root(found.live_map@, f) == root(self.live_map@, f));
                if h == g && x == e {
                    assert(after.holds(wx, wy, g, a, b));
                } else if h == g && x == f {
                    assert(after.holds(vx, vy, g, a, b));
                } else {
                    assert(after.table@[x]@[h] == found.table@[x]@[h]);
                    assert(after.holds(x, y, h, a, b));
                }
            }
        }
    }

    /// Folding goes on when an entry and its reverse have made way for the
    /// entries of their representatives.
    pub proof fn lemma_linked(
        &self,
        start: &CosetTable,
        queue: Seq<usize>,
        found: &CosetTable,
        after: &CosetTable,
        e: int,
        f: int,
        g: int,
        e_rep: int,
        f_rep: int,
    )
        requires
            self.folding(start, queue, e, g),
            0 <= e < self.table@.len(),
            0 <= g < self.num_gens,
            !self.live(e),
            0 <= f < self.table@.len(),
            self.table@[e]@[g] == Some(f as usize),
            found.cleared_from(self, e, f, g),
            e_rep == root(found.live_map@, e),
            f_rep == root(found.live_map@, f),
            found.table@[e_rep]@[g] is None,
            found.table@[f_rep]@[g] is None,
            after.well_formed(),
            after.num_gens == found.num_gens,
            after.limit == found.limit,
            after.live_map == found.live_map,
            after.table@.len() == found.table@.len(),
            forall|c: int, h: int|
                0 <= c < after.table@.len() && 0 <= h < after.num_gens ==> #[trigger] after.table@[c]@[h]
                    == if h == g && c == f_rep {
                    Some(e_rep as usize)
                } else if h == g && c == e_rep {
                    Some(f_rep as usize)
                } else {
                    found.table@[c]@[h]
                },
        ensures
            after.folding(start, queue, e, g + 1),
            !after.live(e),
    {
        assert(self.reversed(e, g));
        lemma_root_is_live(found.live_map@, e);
        lemma_root_is_live(found.live_map@, f);
        assert(!after.live(e)) by {
            assert(live_flags(self.live_map@)[e] == live_flags(found.live_map@)[e]);
        }
        assert(after.live(e_rep) && after.live(f_rep));
        assert forall|k: int| 0 <= k < queue.len() implies (#[trigger] queue[k]) < after.table@.len()
            && !after.live(queue[k] as int) by {
            let d = queue[k] as int;
            assert(live_flags(self.live_map@)[d] == live_flags(found.live_map@)[d]);
        }
        assert(after.symmetric()) by {
            assert forall|c: int, h: int|
                0 <= c < after.table@.len() && 0 <= h < after.num_gens implies #[trigger] after.reversed(
                c,
                h,
            ) by {
                if h == g && (c == e_rep || c == f_rep) {
                } else if found.table@[c]@[h] is Some {
                    let d = found.table@[c]@[h]->Some_0 as int;
                    assert(self.reversed(c, h));
                    assert(found.table@[d]@[h] == self.table@[d]@[h]);
                }
            }
        }
        assert(after.coarsens(start)) by {
            assert forall|x: int| 0 <= x < start.live_map@.len() implies root(
                after.live_map@,
                #[trigger] root(start.live_map@, x),
            ) == root(after.live_map@, x) by {
                lemma_root_is_live(start.live_map@, x);
                let r = root(start.live_map@, x);
                assert(root(self.live_map@, r) == root(self.live_map@, x));
                assert(root(found.live_map@, r) == root(self.live_map@, r));
                assert(root(found.live_map@, x) == root(self.live_map@, x));
            }
        }
        assert forall|d: int| 0 <= d < after.table@.len() implies #[trigger] after.parked(
            queue,
            e,
            g + 1,
            d,
        ) by {
            assert(self.parked(queue, e, g, d));
            assert(live_flags(self.live_map@)[d] == live_flags(found.live_map@)[d]);
            if self.live(d) {
            } else if queue.contains(d as usize) {
            } else if self.row_empty(d) {
                assert forall|h: int| 0 <= h < after.num_gens implies (
                #[trigger] after.table@[d]@[h]) is None by {
                    assert(self.table@[d]@[h] is None);
                    assert(found.table@[d]@[h] is None);
                }
            } else {
                assert forall|h: int| 0 <= h < g + 1 implies (#[trigger] after.table@[d]@[h]) is None by {
                    assert(found.table@[d]@[h] is None) by {
                        if h < g {
                            assert(self.table@[d]@[h] is None);
                        }
                    }
                }
            }
        }
        assert forall|a: int, h: int|
            0 <= a < after.table@.len() && 0 <= h < after.num_gens implies #[trigger] after.held(
            start,
            a,
            h,
        ) by {
            assert(self.held(start, a, h));
            if start.table@[a]@[h] is Some {
                let b = start.table@[a]@[h]->Some_0 as int;
                let (x, y) = choose|x: int, y: int| #[trigger] self.holds(x, y, h, a, b);
                assert(self.holds(x, y, h, a, b));
                assert(root(found.live_map@, x) == root(self.live_map@, x));
                assert(root(found.live_map@, y) == root(self.live_map@, y));
                assert(root(found.live_map@, a) == root(self.live_map@, a));
                assert(root(found.live_map@, b) == root(self.live_map@, b));
                assert(root(found.live_map@, e) == root(self.live_map@, e));
                assert(root(found.live_map@, f) == root(self.live_map@, f));
                if h == g && x == e {
                    assert(after.holds(e_rep, f_rep, g, a, b));
                } else if h == g && x == f {
                    assert(after.holds(f_rep, e_rep, g, a, b));
                } else {
                    assert(found.table@[x]@[h] == self.table@[x]@[h]);
                    assert(after.holds(x, y, h, a, b));
                }
            }
        }
    }

    /// Takes out the entry of `e` under `g`, which is `f`, and its reverse,
    /// and finds the representatives of the two.
    pub(crate) fn clear_pair(&mut self, e: usize, f: usize, g: usize) -> (reps: (usize, usize))
        requires
            old(self).well_formed(),
            e < old(self).table@.len(),
            f < old(self).table@.len(),
            g < old(self).num_gens,
        ensures
            final(self).cleared_from(old(self), e as int, f as int, g as int),
            reps.0 == root(final(self).live_map@, e as int),
            reps.1 == root(final(self).live_map@, f as int),
            reps.0 < final(self).table@.len(),
            reps.1 < final(self).table@.len(),
            final(self).live(reps.0 as int),
            final(self).live(reps.1 as int),
            forall|u: Seq<Seq<usize>>, phi: Seq<int>| #[trigger]
                old(self).mapped(u, phi) ==> final(self).mapped(u, phi),
    {
        let ghost entry_state = *self;
        self.table[e][g] = None;
        self.table[f][g] = None;
        let e_rep = self.rep(e);
        let f_rep = self.rep(f);
        proof {
            lemma_root_is_live(self.live_map@, e as int);
            lemma_root_is_live(self.live_map@, f as int);
            assert forall|u: Seq<Seq<usize>>, phi: Seq<int>| #[trigger]
                entry_state.mapped(u, phi) implies self.mapped(u, phi) by {
                self.lemma_mapped_cleared(&entry_state, u, phi, e as int, f as int, g as int);
            }
        }
        (e_rep, f_rep)
    }

    /// What `merge` does, in the words of `merged_from`.
    pub(crate) fn merge_classes(&mut self, queue: &mut Vec<usize>, coset1: usize, coset2: usize) -> (merged: Ghost<
        (int, int),
    >)
        requires
            old(self).well_formed(),
            coset1 < old(self).table@.len(),
            coset2 < old(self).table@.len(),
        ensures
            final(self).merged_from(old(self), old(queue)@, final(queue)@, merged@.0, merged@.1),
            merged@.0 == root(final(self).live_map@, coset1 as int),
            merged@.0 == root(final(self).live_map@, coset2 as int),
            live_count(final(self).live_map@) + final(queue)@.len() == live_count(
                old(self).live_map@,
            ) + old(queue)@.len(),
            live_count(final(self).live_map@) <= live_count(old(self).live_map@),
            final(self).coarsens(old(self)),
            forall|u: Seq<Seq<usize>>, phi: Seq<int>|
                #[trigger] old(self).mapped(u, phi) && phi[coset1 as int] == phi[coset2 as int]
                    ==> final(self).mapped(u, phi),
            (final(self).work(), final(queue)@) == work_merge(
                old(self).work(),
                old(queue)@,
                coset1 as int,
                coset2 as int,
            ),
    {
        let ghost before = *self;
        let ghost r1 = root(self.live_map@, coset1 as int);
        let ghost r2 = root(self.live_map@, coset2 as int);
        let ghost s = if r1 <= r2 { r1 } else { r2 };
        let ghost t = if r1 <= r2 { r2 } else { r1 };
        proof {
            lemma_root_is_live(self.live_map@, coset1 as int);
            lemma_root_is_live(self.live_map@, coset2 as int);
        }
        self.merge(queue, coset1, coset2);
        proof {
            self.lemma_coarsens_after_merge(&before, &before, s, t);
        }
        Ghost((s, t))
    }

    /// Folds the entry of the merged coset `e` under `g` into the row of
    /// its representative: the entry and its reverse are taken out; if the
    /// representative of `e` has an entry already, what it leads to is
    /// merged with the representative of what `e` led to; if only that
    /// representative has an entry, the same is done the other way round;
    /// and if neither has one, the two representatives get each other.
    pub(crate) fn fold_entry(&mut self, Ghost(start): Ghost<&CosetTable>, queue: &mut Vec<usize>, e: usize, g: usize)
        requires
            old(self).folding(start, old(queue)@, e as int, g as int),
            e < old(self).table@.len(),
            g < old(self).num_gens,
            !old(self).live(e as int),
        ensures
            final(self).folding(start, final(queue)@, e as int, g + 1),
            !final(self).live(e as int),
            live_count(final(self).live_map@) + final(queue)@.len() == live_count(
                old(self).live_map@,
            ) + old(queue)@.len(),
            live_count(final(self).live_map@) <= live_count(old(self).live_map@),
            final(self).coarsens(old(self)),
            forall|u: Seq<Seq<usize>>, phi: Seq<int>|
                acts(u, old(self).num_gens as nat) && #[trigger] old(self).mapped(u, phi)
                    ==> final(self).mapped(u, phi),
            (final(self).work(), final(queue)@) == work_fold_entry(
                old(self).work(),
                old(queue)@,
                e as int,
                g as int,
            ),
    {
        let ghost entry_state = *self;
        let ghost entry_queue = queue@;
        match self.table[e][g] {
            None => {
                proof {
                    assert forall|d: int| 0 <= d < self.table@.len() implies #[trigger] self.parked(
                        queue@,
                        e as int,
                        g + 1,
                        d,
                    ) by {
                        assert(entry_state.parked(entry_queue, e as int, g as int, d));
                    }
                    assert forall|x: int| 0 <= x < self.live_map@.len() implies root(
                        self.live_map@,
                        #[trigger] root(self.live_map@, x),
                    ) == root(self.live_map@, x) by {
                        lemma_root_is_live(self.live_map@, x);
                    }
                }
            },
            Some(f) => {
                assert(entry_state.reversed(e as int, g as int));
                let (e_rep, f_rep) = self.clear_pair(e, f, g);
                let ghost found = *self;
                proof {
                    found.lemma_work_rows(
                        &entry_state,
                        put(put(entry_state.rows(), e as int, g as int, None), f as int, g as int, None),
                    );
                }
                if let Some(x) = self.table[e_rep][g] {
                    let Ghost(merged) = self.merge_classes(queue, f_rep, x);
                    proof {
                        assert forall|u: Seq<Seq<usize>>, phi: Seq<int>|
                            acts(u, entry_state.num_gens as nat) && #[trigger] entry_state.mapped(
                                u,
                                phi,
                            ) implies self.mapped(u, phi) by {
                            entry_state.lemma_fold_points(
                                &found,
                                u,
                                phi,
                                e as int,
                                f as int,
                                g as int,
                                e_rep as int,
                                f_rep as int,
                            );
                        }
                        assert(entry_state.reversed(e_rep as int, g as int));
                        entry_state.lemma_holds_after_merge(
                            &found,
                            self,
                            e as int,
                            f as int,
                            g as int,
                            e_rep as int,
                            x as int,
                            f_rep as int,
                        );
                        entry_state.lemma_folded(
                            start,
                            entry_queue,
                            &found,
                            self,
                            queue@,
                            e as int,
                            f as int,
                            g as int,
                            merged.0,
                            merged.1,
                            e_rep as int,
                            x as int,
                            x as int,
                            e_rep as int,
                        );
                        self.lemma_coarsens_on(&found, &entry_state);
                    }
                } else if let Some(x) = self.table[f_rep][g] {
                    let Ghost(merged) = self.merge_classes(queue, e_rep, x);
                    proof {
                        assert forall|u: Seq<Seq<usize>>, phi: Seq<int>|
                            acts(u, entry_state.num_gens as nat) && #[trigger] entry_state.mapped(
                                u,
                                phi,
                            ) implies self.mapped(u, phi) by {
                            entry_state.lemma_fold_points(
                                &found,
                                u,
                                phi,
                                e as int,
                                f as int,
                                g as int,
                                e_rep as int,
                                f_rep as int,
                            );
                        }
                        assert(entry_state.reversed(f_rep as int, g as int));
                        entry_state.lemma_holds_after_merge(
                            &found,
                            self,
                            f as int,
                            e as int,
                            g as int,
                            f_rep as int,
                            x as int,
                            e_rep as int,
                        );
                        entry_state.lemma_folded(
                            start,
                            entry_queue,
                            &found,
                            self,
                            queue@,
                            e as int,
                            f as int,
                            g as int,
                            merged.0,
                            merged.1,
                            x as int,
                            f_rep as int,
                            f_rep as int,
                            x as int,
                        );
                        self.lemma_coarsens_on(&found, &entry_state);
                    }
                } else {
                    self.table[e_rep][g] = Some(f_rep);
                    self.table[f_rep][g] = Some(e_rep);
                    proof {
                        self.lemma_work_rows(
                            &found,
                            put(
                                put(found.rows(), e_rep as int, g as int, Some(f_rep)),
                                f_rep as int,
                                g as int,
                                Some(e_rep),
                            ),
                        );
                        assert forall|u: Seq<Seq<usize>>, phi: Seq<int>|
                            acts(u, entry_state.num_gens as nat) && #[trigger] entry_state.mapped(
                                u,
                                phi,
                            ) implies self.mapped(u, phi) by {
                            entry_state.lemma_fold_points(
                                &found,
                                u,
                                phi,
                                e as int,
                                f as int,
                                g as int,
                                e_rep as int,
                                f_rep as int,
                            );
                            self.lemma_mapped_linked(
                                &found,
                                u,
                                phi,
                                e_rep as int,
                                f_rep as int,
                                g as int,
                            );
                        }
                        entry_state.lemma_linked(
                            start,
                            entry_queue,
                            &found,
                            self,
                            e as int,
                            f as int,
                            g as int,
                            e_rep as int,
                            f_rep as int,
                        );
                        assert(self.coarsens(&found)) by {
                            assert forall|x: int| 0 <= x < found.live_map@.len() implies root(
                                self.live_map@,
                                #[trigger] root(found.live_map@, x),
                            ) == root(self.live_map@, x) by {
                                lemma_root_is_live(found.live_map@, x);
                            }
                        }
                        self.lemma_coarsens_on(&found, &entry_state);
                    }
                }
            },
        }
    }

    /// The entry of the representative `top` under `g` is `x`, and the
    /// class of `x` has been merged with the class of `other`, the
    /// representative of `low`: then `top` and `x` hold what `high` and `low`
    /// held for each other, where `top` is the representative of `high`.
    pub proof fn lemma_holds_after_merge(
        &self,
        found: &CosetTable,
        after: &CosetTable,
        high: int,
        low: int,
        g: int,
        top: int,
        x: int,
        other: int,
    )
        requires
            self.well_formed(),
            self.symmetric(),
            0 <= high < self.table@.len(),
            0 <= low < self.table@.len(),
            0 <= g < self.num_gens,
            0 <= x < self.table@.len(),
            self.table@[high]@[g] == Some(low as usize),
            self.table@[low]@[g] == Some(high as usize),
            found.cleared_from(self, high, low, g) || found.cleared_from(self, low, high, g),
            top == root(found.live_map@, high),
            other == root(found.live_map@, low),
            found.table@[top]@[g] == Some(x as usize),
            after.table == found.table,
            after.well_formed(),
            after.live_map@.len() == found.live_map@.len(),
            after.coarsens(found),
            root(after.live_map@, other) == root(after.live_map@, x),
        ensures
            after.holds(top, x, g, high, low),
            after.holds(x, top, g, low, high),
    {
        lemma_root_is_live(found.live_map@, high);
        lemma_root_is_live(found.live_map@, low);
        assert(self.reversed(top, g));
        assert(found.table@[x]@[g] == self.table@[x]@[g]);
        assert(root(after.live_map@, root(found.live_map@, high)) == root(after.live_map@, high));
        assert(root(after.live_map@, root(found.live_map@, low)) == root(after.live_map@, low));
    }

    /// If the representatives of `middle` are still in their classes, and
    /// `middle` has the classes of `before`, the representatives of `before`
    /// are still in their classes.
    pub proof fn lemma_coarsens_on(&self, middle: &CosetTable, before: &CosetTable)
        requires
            self.coarsens(middle),
            middle.live_map@.len() == before.live_map@.len(),
            before.well_formed(),
            forall|x: int|
                0 <= x < before.live_map@.len() ==> #[trigger] root(middle.live_map@, x) == root(
                    before.live_map@,
                    x,
                ),
        ensures
            self.coarsens(before),
    {
        assert forall|x: int| 0 <= x < before.live_map@.len() implies root(
            self.live_map@,
            #[trigger] root(before.live_map@, x),
        ) == root(self.live_map@, x) by {
            lemma_root_is_live(before.live_map@, x);
            let r = root(before.live_map@, x);
            assert(root(middle.live_map@, r) == r);
            assert(root(middle.live_map@, x) == r);
            assert(root(self.live_map@, root(middle.live_map@, x)) == root(self.live_map@, x));
        }
    }

    /// When classes are merged, the representatives of before are still in
    /// the classes of their cosets.
    pub proof fn lemma_coarsens_after_merge(
        &self,
        before: &CosetTable,
        found: &CosetTable,
        s: int,
        t: int,
    )
        requires
            before.well_formed(),
            found.live_map@.len() == before.live_map@.len(),
            forall|x: int|
                0 <= x < before.live_map@.len() ==> #[trigger] root(found.live_map@, x) == root(
                    before.live_map@,
                    x,
                ),
            self.live_map@.len() == found.live_map@.len(),
            forall|x: int|
                0 <= x < found.live_map@.len() ==> #[trigger] root(self.live_map@, x) == if root(
                    found.live_map@,
                    x,
                ) == t {
                    s
                } else {
                    root(found.live_map@, x)
                },
        ensures
            self.coarsens(before),
    {
        assert forall|x: int| 0 <= x < before.live_map@.len() implies root(
            self.live_map@,
            #[trigger] root(before.live_map@, x),
        ) == root(self.live_map@, x) by {
            lemma_root_is_live(before.live_map@, x);
            let r = root(before.live_map@, x);
            assert(root(found.live_map@, r) == root(before.live_map@, r));
            assert(root(found.live_map@, x) == r);
        }
    }

    /// Processes the coincidence of two cosets: merges their classes and,
    /// for as long as merged cosets are queued, folds the row of each
    /// merged coset into the row of its representative, merging again
    /// wherever two entries disagree.
    ///
    /// Afterwards the two cosets are in one class, and the representative
    /// of every class has the entries that the cosets of the class had, by
    /// their representatives. Cosets that were sent to the rows of an
    /// action, the two to one row, are sent to them as before.
    pub fn coincidence(&mut self, coset1: usize, coset2: usize)
        requires
            old(self).clean(),
            coset1 < old(self).table@.len(),
            coset2 < old(self).table@.len(),
        ensures
            final(self).clean(),
            final(self).num_gens == old(self).num_gens,
            final(self).limit == old(self).limit,
            final(self).table@.len() == old(self).table@.len(),
            final(self).descends(old(self)),
            root(final(self).live_map@, coset1 as int) == root(
                final(self).live_map@,
                coset2 as int,
            ),
            forall|u: Seq<Seq<usize>>, phi: Seq<int>|
                acts(u, old(self).num_gens as nat) && #[trigger] old(self).mapped(u, phi)
                    && phi[coset1 as int] == phi[coset2 as int] ==> final(self).mapped(u, phi),
            final(self).work() == work_coincidence(
                old(self).work(),
                old(self).num_gens as int,
                coset1 as int,
                coset2 as int,
            ),
    {
        let ghost start = *self;
        let mut queue: Vec<usize> = Vec::new();
        self.merge(&mut queue, coset1, coset2);
        let ghost mut fuel: nat = start.table@.len();
        proof {
            lemma_count_bound(live_flags(start.live_map@));
            assert(queue@ =~= work_merge(
                start.work(),
                Seq::empty(),
                coset1 as int,
                coset2 as int,
            ).1);
            let r1 = root(start.live_map@, coset1 as int);
            let r2 = root(start.live_map@, coset2 as int);
            let s = if r1 <= r2 { r1 } else { r2 };
            let t = if r1 <= r2 { r2 } else { r1 };
            self.lemma_coarsens_after_merge(&start, &start, s, t);
            assert forall|k: int| 0 <= k < queue@.len() implies (#[trigger] queue@[k])
                < self.table@.len() && !self.live(queue@[k] as int) by {
                assert(live_flags(self.live_map@)[t] == false);
            }
            assert forall|d: int| 0 <= d < self.table@.len() implies #[trigger] self.parked(
                queue@,
                -1,
                0,
                d,
            ) by {
                if !self.live(d) {
                    if start.live(d) {
                        assert(live_flags(start.live_map@)[d]);
                        assert(!live_flags(self.live_map@)[d]);
                        assert(d == t);
                        assert(queue@[0] == t);
                    } else {
                        assert(start.row_empty(d));
                    }
                }
            }
            assert forall|a: int, g: int|
                0 <= a < self.table@.len() && 0 <= g < self.num_gens implies #[trigger] self.held(
                &start,
                a,
                g,
            ) by {
                if start.table@[a]@[g] is Some {
                    let b = start.table@[a]@[g]->Some_0 as int;
                    assert(self.holds(a, b, g, a, b));
                }
            }
            assert(self.symmetric()) by {
                assert forall|c: int, h: int|
                    0 <= c < self.table@.len() && 0 <= h < self.num_gens implies #[trigger] self.reversed(
                    c,
                    h,
                ) by {
                    assert(start.reversed(c, h));
                }
            }
        }
        while queue.len() != 0
            invariant
                self.folding(&start, queue@, -1, 0),
                root(self.live_map@, coset1 as int) == root(self.live_map@, coset2 as int),
                coset1 < self.table@.len(),
                coset2 < self.table@.len(),
                forall|u: Seq<Seq<usize>>, phi: Seq<int>|
                    acts(u, start.num_gens as nat) && #[trigger] start.mapped(u, phi)
                        && phi[coset1 as int] == phi[coset2 as int] ==> self.mapped(u, phi),
                fuel >= live_count(self.live_map@) + queue@.len(),
                work_coincide(self.work(), queue@, self.num_gens as int, fuel) == work_coincidence(
                    start.work(),
                    start.num_gens as int,
                    coset1 as int,
                    coset2 as int,
                ),
            decreases live_count(self.live_map@), queue@.len(),
        {
            let ghost queue_before = queue@;
            let ghost work_before = self.work();
            let e = queue.remove(0);
            proof {
                assert(queue@ =~= queue_before.drop_first());
            }
            let ghost queue_popped = queue@;
            let ghost lc0 = live_count(self.live_map@);
            let ghost q0 = queue@.len();
            proof {
                assert(queue_before[0] == e);
                assert forall|k: int| 0 <= k < queue@.len() implies (#[trigger] queue@[k])
                    < self.table@.len() && !self.live(queue@[k] as int) by {
                    assert(queue@[k] == queue_before[k + 1]);
                }
                assert forall|d: int| 0 <= d < self.table@.len() implies #[trigger] self.parked(
                    queue@,
                    e as int,
                    0,
                    d,
                ) by {
                    assert(self.parked(queue_before, -1, 0, d));
                    if queue_before.contains(d as usize) && d != e {
                        let k = choose|k: int|
                            0 <= k < queue_before.len() && queue_before[k] == d as usize;
                        assert(queue@[k - 1] == d as usize);
                    }
                }
            }
            let mut g: usize = 0;
            while g < self.num_gens
                invariant
                    self.folding(&start, queue@, e as int, g as int),
                    e < self.table@.len(),
                    !self.live(e as int),
                    g <= self.num_gens,
                    root(self.live_map@, coset1 as int) == root(self.live_map@, coset2 as int),
                    coset1 < self.table@.len(),
                    coset2 < self.table@.len(),
                    live_count(self.live_map@) + queue@.len() == lc0 + q0,
                    live_count(self.live_map@) <= lc0,
                    forall|u: Seq<Seq<usize>>, phi: Seq<int>|
                        acts(u, start.num_gens as nat) && #[trigger] start.mapped(u, phi)
                            && phi[coset1 as int] == phi[coset2 as int] ==> self.mapped(u, phi),
                    work_fold_row(self.work(), queue@, self.num_gens as int, e as int, g as int)
                        == work_fold_row(
                        work_before,
                        queue_popped,
                        self.num_gens as int,
                        e as int,
                        0,
                    ),
                decreases self.num_gens - g,
            {
                let ghost before = *self;
                self.fold_entry(Ghost(&start), &mut queue, e, g);
                proof {
                    lemma_root_is_live(before.live_map@, coset1 as int);
                    lemma_root_is_live(before.live_map@, coset2 as int);
                    assert(root(self.live_map@, root(before.live_map@, coset1 as int)) == root(
                        self.live_map@,
                        coset1 as int,
                    ));
                    assert(root(self.live_map@, root(before.live_map@, coset2 as int)) == root(
                        self.live_map@,
                        coset2 as int,
                    ));
                }
                g += 1;
            }
            proof {
                assert forall|d: int| 0 <= d < self.table@.len() implies #[trigger] self.parked(
                    queue@,
                    -1,
                    0,
                    d,
                ) by {
                    assert(self.parked(queue@, e as int, self.num_gens as int, d));
                }
                fuel = (fuel - 1) as nat;
            }
        }
        proof {
            assert forall|d: int| 0 <= d < self.table@.len() && !self.live(d) implies #[trigger] self.row_empty(
                d,
            ) by {
                assert(self.parked(queue@, -1, 0, d));
            }
            assert forall|a: int, g: int|
                0 <= a < start.table@.len() && 0 <= g < start.num_gens implies #[trigger] self.passed(
                &start,
                a,
                g,
            ) by {
                assert(self.held(&start, a, g));
                if start.table@[a]@[g] is Some {
                    let b = start.table@[a]@[g]->Some_0 as int;
                    let (x, y) = choose|x: int, y: int| #[trigger] self.holds(x, y, g, a, b);
                    assert(self.holds(x, y, g, a, b));
                    assert(self.reversed(x, g));
                    if !self.live(x) {
                        assert(self.row_empty(x));
                    }
                    if !self.live(y) {
                        assert(self.row_empty(y));
                    }
                }
            }
        }
    }

    /// Some word leads from the coset 0 to the representative of `c`.
    pub open spec fn class_reached(&self, c: int) -> bool {
        exists|word: Seq<usize>| #[trigger]
            follow(self.rows(), 0, word) == Some(root(self.live_map@, c))
    }

    /// The table is clean, and the class of every coset is reached from
    /// the coset 0.
    pub open spec fn sound(&self) -> bool {
        &&& self.clean()
        &&& forall|c: int| 0 <= c < self.table@.len() ==> #[trigger] self.class_reached(c)
    }

    /// In a clean table a coset with an entry is its own representative,
    /// and so is the coset that the entry names.
    pub proof fn lemma_entries_live(&self, a: int, g: int)
        requires
            self.clean(),
            0 <= a < self.table@.len(),
            0 <= g < self.num_gens,
            self.table@[a]@[g] is Some,
        ensures
            self.live(a),
            self.live(self.table@[a]@[g]->Some_0 as int),
            root(self.live_map@, a) == a,
            root(self.live_map@, self.table@[a]@[g]->Some_0 as int) == self.table@[a]@[g]->Some_0,
    {
        let b = self.table@[a]@[g]->Some_0 as int;
        assert(self.reversed(a, g));
        if !self.live(a) {
            assert(self.row_empty(a));
        }
        if !self.live(b) {
            assert(self.row_empty(b));
        }
    }

    /// A table that extends a clean table descends from it.
    pub proof fn lemma_extends_descends(&self, before: &CosetTable)
        requires
            self.extends(before),
            self.well_formed(),
            before.clean(),
            self.num_gens == before.num_gens,
        ensures
            self.descends(before),
            forall|x: int|
                0 <= x < before.live_map@.len() ==> #[trigger] root(self.live_map@, x) == root(
                    before.live_map@,
                    x,
                ),
    {
        assert forall|x: int| 0 <= x < before.live_map@.len() implies #[trigger] root(
            self.live_map@,
            x,
        ) == root(before.live_map@, x) by {
            lemma_root_prefix(before.live_map@, self.live_map@, x);
        }
        assert forall|x: int| 0 <= x < before.live_map@.len() implies root(
            self.live_map@,
            #[trigger] root(before.live_map@, x),
        ) == root(self.live_map@, x) by {
            lemma_root_is_live(before.live_map@, x);
            assert(root(self.live_map@, root(before.live_map@, x)) == root(
                before.live_map@,
                root(before.live_map@, x),
            ));
        }
        assert forall|a: int, g: int|
            0 <= a < before.table@.len() && 0 <= g < before.num_gens implies #[trigger] self.passed(
            before,
            a,
            g,
        ) by {
            if before.table@[a]@[g] is Some {
                before.lemma_entries_live(a, g);
                let b = before.table@[a]@[g]->Some_0 as int;
                assert(self.table@[a]@[g] == before.table@[a]@[g]);
                assert(root(self.live_map@, a) == root(before.live_map@, a));
                assert(root(self.live_map@, b) == root(before.live_map@, b));
            }
        }
    }

    /// A table that descends from a table that descends from a third
    /// descends from the third.
    pub proof fn lemma_descends_on(&self, middle: &CosetTable, before: &CosetTable)
        requires
            self.descends(middle),
            middle.descends(before),
            self.well_formed(),
            middle.well_formed(),
            before.well_formed(),
        ensures
            self.descends(before),
    {
        assert forall|x: int| 0 <= x < before.live_map@.len() implies root(
            self.live_map@,
            #[trigger] root(before.live_map@, x),
        ) == root(self.live_map@, x) by {
            lemma_root_is_live(before.live_map@, x);
            let r = root(before.live_map@, x);
            assert(root(middle.live_map@, r) == root(middle.live_map@, x));
            assert(root(self.live_map@, root(middle.live_map@, r)) == root(self.live_map@, r));
            assert(root(self.live_map@, root(middle.live_map@, x)) == root(self.live_map@, x));
        }
        assert forall|a: int, g: int|
            0 <= a < before.table@.len() && 0 <= g < before.num_gens implies #[trigger] self.passed(
            before,
            a,
            g,
        ) by {
            if before.table@[a]@[g] is Some {
                let b = before.table@[a]@[g]->Some_0 as int;
                assert(middle.passed(before, a, g));
                let ra = root(middle.live_map@, a);
                let rb = root(middle.live_map@, b);
                lemma_root_is_live(middle.live_map@, a);
                lemma_root_is_live(middle.live_map@, b);
                assert(self.passed(middle, ra, g));
                assert(root(self.live_map@, root(middle.live_map@, a)) == root(self.live_map@, a));
                assert(root(self.live_map@, root(middle.live_map@, b)) == root(self.live_map@, b));
            }
        }
    }

    /// Where a word led in a table, it leads from representative to
    /// representative in a table that descends from it.
    pub proof fn lemma_follow_descends(&self, before: &CosetTable, c: int, word: Seq<usize>)
        requires
            self.descends(before),
            self.well_formed(),
            before.well_formed(),
            0 <= c < before.table@.len(),
            follow(before.rows(), c, word) is Some,
        ensures
            0 <= follow(before.rows(), c, word)->Some_0 < before.table@.len(),
            follow(self.rows(), root(self.live_map@, c), word) == Some(
                root(self.live_map@, follow(before.rows(), c, word)->Some_0),
            ),
        decreases word.len(),
    {
        if word.len() > 0 {
            self.lemma_follow_descends(before, c, word.drop_last());
            let m = follow(before.rows(), c, word.drop_last())->Some_0;
            let g = word.last();
            assert(entry(before.rows(), m, g) is Some);
            assert(before.rows()[m][g as int] == before.table@[m]@[g as int]);
            assert(self.passed(before, m, g as int));
            lemma_root_is_live(self.live_map@, m);
            let rm = root(self.live_map@, m);
            let x = before.table@[m]@[g as int]->Some_0 as int;
            lemma_root_is_live(self.live_map@, x);
            assert(self.rows()[rm][g as int] == self.table@[rm]@[g as int]);
            assert(entry(self.rows(), rm, g) == Some(root(self.live_map@, x) as usize));
            assert(follow(before.rows(), c, word) == Some(x));
        }
    }

    /// A table that descends from a sound table, is clean, and reaches the
    /// classes of the cosets that it has more, is sound.
    pub proof fn lemma_sound_descends(&self, before: &CosetTable)
        requires
            before.sound(),
            self.descends(before),
            self.clean(),
            forall|c: int|
                before.table@.len() <= c < self.table@.len() ==> #[trigger] self.class_reached(c),
        ensures
            self.sound(),
    {
        assert forall|c: int| 0 <= c < self.table@.len() implies #[trigger] self.class_reached(c) by {
            if c < before.table@.len() {
                assert(before.class_reached(c));
                let word = choose|word: Seq<usize>| #[trigger]
                    follow(before.rows(), 0, word) == Some(root(before.live_map@, c));
                self.lemma_follow_descends(before, 0, word);
                assert(root(self.live_map@, 0) == 0);
                assert(root(self.live_map@, root(before.live_map@, c)) == root(self.live_map@, c));
            }
        }
    }

    /// What holds between the steps of a scan: the table is sound and
    /// extends the table `start` of the beginning.
    pub open spec fn scanning(&self, start: &CosetTable) -> bool {
        &&& start.sound()
        &&& self.sound()
        &&& self.num_gens == start.num_gens
        &&& self.limit == start.limit
        &&& self.extends(start)
    }

    /// Scans `word` from `coset` forwards and backwards as far as the table
    /// has entries. Where the two scans meet in one coset, nothing is to be
    /// done; where they meet in two, the coincidence of the two is
    /// processed; where one letter is left between them, the table gains a
    /// deduction; and where more is left, fresh cosets are defined along the
    /// word until one of these is the case, or the table is full.
    ///
    /// Unless a coincidence was processed, the table has only gained
    /// entries and cosets. If the scan was filled, the word leads from
    /// `coset` back to `coset`. Whatever was done holds in every action in
    /// which the table held before and the word leads from the row of
    /// `coset` back to it.
    pub fn scan_and_fill(&mut self, coset: usize, word: &[usize]) -> (outcome: ScanOutcome)
        requires
            old(self).sound(),
            coset < old(self).table@.len(),
            old(self).live(coset as int),
            word@.len() >= 1,
            forall|k: int| 0 <= k < word@.len() ==> word@[k] < old(self).num_gens,
        ensures
            final(self).sound(),
            final(self).num_gens == old(self).num_gens,
            final(self).limit == old(self).limit,
            final(self).descends(old(self)),
            outcome == ScanOutcome::Full ==> final(self).table@.len() == final(self).limit,
            outcome != ScanOutcome::Coincidence ==> final(self).extends(old(self)),
            outcome == ScanOutcome::Filled ==> follow(final(self).rows(), coset as int, word@) == Some(
                coset as int,
            ),
            outcome != ScanOutcome::Full ==> follow(
                final(self).rows(),
                root(final(self).live_map@, coset as int),
                word@,
            ) == Some(root(final(self).live_map@, coset as int)),
            final(self).scanned_from(old(self), coset as int, word@),
            (final(self).work(), outcome) == work_scan_from(
                old(self).work(),
                old(self).num_gens as int,
                old(self).limit as int,
                coset as int,
                word@,
            ),
    {
        let n = word.len();
        let ghost start = *self;
        let mut f = coset;
        let mut b = coset;
        let mut i: usize = 0;
        let mut hi: usize = n;
        proof {
            assert(word@.take(0) =~= Seq::<usize>::empty());
            assert(word@.subrange(n as int, n as int) =~= Seq::<usize>::empty());
            self.lemma_continues_first(coset as int);
        }
        loop
            invariant
                start == *old(self),
                self.continues(&start, coset as int),
                self.scanning(old(self)),
                n == word@.len(),
                forall|k: int| 0 <= k < word@.len() ==> word@[k] < self.num_gens,
                coset < self.table@.len(),
                f < self.table@.len(),
                b < self.table@.len(),
                self.live(f as int),
                self.live(b as int),
                self.live(coset as int),
                i <= hi <= n,
                follow(self.rows(), coset as int, word@.take(i as int)) == Some(f as int),
                follow(self.rows(), b as int, word@.subrange(hi as int, n as int)) == Some(
                    coset as int,
                ),
                work_scan(
                    self.work(),
                    self.num_gens as int,
                    self.limit as int,
                    word@,
                    i as int,
                    hi as int,
                    f as int,
                    b as int,
                ) == work_scan_from(
                    start.work(),
                    start.num_gens as int,
                    start.limit as int,
                    coset as int,
                    word@,
                ),
            decreases hi - i,
        {
            let ghost i0 = i;
            let ghost hi0 = hi;
            let ghost f0 = f;
            let ghost b0 = b;
            // scan forwards as far as possible
            while i < hi && self.table[f][word[i]].is_some()
                invariant
                    i0 <= i,
                    self.clean(),
                    n == word@.len(),
                    forall|k: int| 0 <= k < word@.len() ==> word@[k] < self.num_gens,
                    f < self.table@.len(),
                    self.live(f as int),
                    i <= hi <= n,
                    follow(self.rows(), coset as int, word@.take(i as int)) == Some(f as int),
                    scan_forward(self.rows(), word@, i as int, hi as int, f as int) == scan_forward(
                        self.rows(),
                        word@,
                        i0 as int,
                        hi as int,
                        f0 as int,
                    ),
                decreases hi - i,
            {
                proof {
                    assert(word@.take(i + 1).drop_last() =~= word@.take(i as int));
                    self.lemma_entries_live(f as int, word@[i as int] as int);
                }
                f = self.table[f][word[i]].unwrap();
                i += 1;
            }
            if i == hi {
                if f != b {
                    let ghost before = *self;
                    self.coincidence(f, b);
                    proof {
                        self.lemma_scanned_merged(
                            &before,
                            &start,
                            coset as int,
                            f as int,
                            b as int,
                            word@,
                            i as int,
                        );
                        self.lemma_scan_merged(&before, old(self));
                        self.lemma_follow_descends(&before, coset as int, word@.take(i as int));
                        self.lemma_follow_descends(
                            &before,
                            b as int,
                            word@.subrange(hi as int, n as int),
                        );
                        lemma_follow_joined(
                            self.rows(),
                            root(self.live_map@, coset as int),
                            word@.take(i as int),
                            word@.subrange(hi as int, n as int),
                        );
                        assert(word@.take(i as int) + word@.subrange(hi as int, n as int) =~= word@);
                    }
                    return ScanOutcome::Coincidence;
                }
                proof {
                    lemma_follow_joined(
                        self.rows(),
                        coset as int,
                        word@.take(i as int),
                        word@.subrange(hi as int, n as int),
                    );
                    assert(word@.take(i as int) + word@.subrange(hi as int, n as int) =~= word@);
                    self.lemma_extends_descends(old(self));
                    assert(root(self.live_map@, coset as int) == coset);
                    self.lemma_scanned_same(&start, coset as int, word@);
                }
                return ScanOutcome::Filled;
            }
            // scan backwards as far as possible
            while hi > i && self.table[b][word[hi - 1]].is_some()
                invariant
                    hi <= hi0,
                    self.clean(),
                    n == word@.len(),
                    forall|k: int| 0 <= k < word@.len() ==> word@[k] < self.num_gens,
                    b < self.table@.len(),
                    self.live(b as int),
                    i <= hi <= n,
                    follow(self.rows(), b as int, word@.subrange(hi as int, n as int)) == Some(
                        coset as int,
                    ),
                    scan_backward(self.rows(), word@, i as int, hi as int, b as int)
                        == scan_backward(self.rows(), word@, i as int, hi0 as int, b0 as int),
                decreases hi - i,
            {
                let next = self.table[b][word[hi - 1]].unwrap();
                proof {
                    assert(self.rows()[b as int][word@[hi - 1] as int] == Some(next));
                    assert(self.reversed(b as int, word@[hi - 1] as int));
                    self.lemma_entries_live(b as int, word@[hi - 1] as int);
                    assert(entry(self.rows(), next as int, word@[hi - 1]) == Some(b));
                    lemma_follow_led(
                        self.rows(),
                        next as int,
                        word@[hi - 1],
                        b,
                        word@.subrange(hi as int, n as int),
                    );
                    assert(seq![word@[hi - 1]] + word@.subrange(hi as int, n as int)
                        =~= word@.subrange(hi - 1, n as int));
                }
                b = next;
                hi -= 1;
            }
            if hi == i {
                if f != b {
                    let ghost before = *self;
                    self.coincidence(f, b);
                    proof {
                        self.lemma_scanned_merged(
                            &before,
                            &start,
                            coset as int,
                            f as int,
                            b as int,
                            word@,
                            i as int,
                        );
                        self.lemma_scan_merged(&before, old(self));
                        self.lemma_follow_descends(&before, coset as int, word@.take(i as int));
                        self.lemma_follow_descends(
                            &before,
                            b as int,
                            word@.subrange(hi as int, n as int),
                        );
                        lemma_follow_joined(
                            self.rows(),
                            root(self.live_map@, coset as int),
                            word@.take(i as int),
                            word@.subrange(hi as int, n as int),
                        );
                        assert(word@.take(i as int) + word@.subrange(hi as int, n as int) =~= word@);
                    }
                    return ScanOutcome::Coincidence;
                }
                proof {
                    lemma_follow_joined(
                        self.rows(),
                        coset as int,
                        word@.take(i as int),
                        word@.subrange(hi as int, n as int),
                    );
                    assert(word@.take(i as int) + word@.subrange(hi as int, n as int) =~= word@);
                    self.lemma_extends_descends(old(self));
                    assert(root(self.live_map@, coset as int) == coset);
                    self.lemma_scanned_same(&start, coset as int, word@);
                }
                return ScanOutcome::Filled;
            } else if hi - i == 1 {
                // the scans meet in one letter: a deduction
                let ghost before = *self;
                let letter = word[i];
                self.table[f][letter] = Some(b);
                self.table[b][letter] = Some(f);
                proof {
                    self.lemma_work_rows(
                        &before,
                        put(
                            put(before.rows(), f as int, letter as int, Some(b)),
                            b as int,
                            letter as int,
                            Some(f),
                        ),
                    );
                    self.lemma_scanned_deduced(
                        &before,
                        &start,
                        coset as int,
                        f as int,
                        b as int,
                        word@,
                        i as int,
                    );
                    self.lemma_deduced(&before, old(self), f as int, b as int, letter as int);
                    self.lemma_gained_rows(&before);
                    lemma_follow_kept(before.rows(), self.rows(), coset as int, word@.take(i as int));
                    lemma_follow_kept(
                        before.rows(),
                        self.rows(),
                        b as int,
                        word@.subrange(hi as int, n as int),
                    );
                    assert(word@.take(i + 1).drop_last() =~= word@.take(i as int));
                    assert(entry(self.rows(), f as int, letter) == Some(b));
                    assert(follow(self.rows(), coset as int, word@.take(i + 1)) == Some(b as int));
                    lemma_follow_joined(
                        self.rows(),
                        coset as int,
                        word@.take(i + 1),
                        word@.subrange(hi as int, n as int),
                    );
                    assert(word@.take(i + 1) + word@.subrange(hi as int, n as int) =~= word@);
                    self.lemma_extends_descends(old(self));
                    assert(self.live(coset as int));
                    assert(root(self.live_map@, coset as int) == coset);
                }
                return ScanOutcome::Filled;
            } else {
                // define a new coset and go on scanning from it
                let ghost before = *self;
                let fresh = self.table.len();
                let letter = word[i];
                if !self.define(f, letter) {
                    proof {
                        self.lemma_extends_descends(old(self));
                        self.lemma_scanned_same(&start, coset as int, word@);
                    }
                    return ScanOutcome::Full;
                }
                proof {
                    self.lemma_continues_defined(
                        &before,
                        &start,
                        coset as int,
                        f as int,
                        letter as int,
                    );
                    assert(before.rows()[f as int][letter as int] is None);
                    self.lemma_defined(&before, old(self), f as int, letter as int);
                    self.lemma_gained_rows(&before);
                    lemma_follow_kept(before.rows(), self.rows(), coset as int, word@.take(i as int));
                    lemma_follow_kept(
                        before.rows(),
                        self.rows(),
                        b as int,
                        word@.subrange(hi as int, n as int),
                    );
                    assert(word@.take(i + 1).drop_last() =~= word@.take(i as int));
                    assert(entry(self.rows(), f as int, letter) == Some(fresh));
                    assert(self.live(coset as int) && self.live(b as int));
                }
                f = fresh;
                i += 1;
            }
        }
    }

    /// A scan that ends with a coincidence leaves a sound table that
    /// descends from the table of its beginning.
    pub proof fn lemma_scan_merged(&self, before: &CosetTable, start: &CosetTable)
        requires
            before.scanning(start),
            self.clean(),
            self.num_gens == before.num_gens,
            self.table@.len() == before.table@.len(),
            self.descends(before),
        ensures
            self.sound(),
            self.descends(start),
    {
        before.lemma_extends_descends(start);
        self.lemma_descends_on(before, start);
        self.lemma_sound_descends(before);
    }

    /// A deduction keeps a scan going: the table stays sound and extends
    /// the table of the beginning.
    pub proof fn lemma_deduced(&self, before: &CosetTable, start: &CosetTable, f: int, b: int, g: int)
        requires
            before.scanning(start),
            0 <= f < before.table@.len(),
            0 <= b < before.table@.len(),
            0 <= g < before.num_gens,
            before.live(f),
            before.live(b),
            before.table@[f]@[g] is None,
            before.table@[b]@[g] is None,
            self.well_formed(),
            self.num_gens == before.num_gens,
            self.limit == before.limit,
            self.live_map == before.live_map,
            self.table@.len() == before.table@.len(),
            forall|c: int, h: int|
                0 <= c < self.table@.len() && 0 <= h < self.num_gens ==> #[trigger] self.table@[c]@[h]
                    == if h == g && c == b {
                    Some(f as usize)
                } else if h == g && c == f {
                    Some(b as usize)
                } else {
                    before.table@[c]@[h]
                },
        ensures
            self.scanning(start),
            self.extends(before),
    {
        assert(self.extends(before));
        self.lemma_extends_on(before, start);
        assert(self.symmetric()) by {
            assert forall|c: int, h: int|
                0 <= c < self.table@.len() && 0 <= h < self.num_gens implies #[trigger] self.reversed(
                c,
                h,
            ) by {
                assert(before.reversed(c, h));
            }
        }
        assert forall|d: int| 0 <= d < self.table@.len() && !self.live(d) implies #[trigger] self.row_empty(
            d,
        ) by {
            assert(before.row_empty(d));
        }
        self.lemma_extends_descends(before);
        self.lemma_sound_descends(before);
    }

    /// A definition keeps a scan going: the table stays sound and extends
    /// the table of the beginning.
    pub proof fn lemma_defined(&self, before: &CosetTable, start: &CosetTable, f: int, g: int)
        requires
            before.scanning(start),
            0 <= f < before.table@.len(),
            0 <= g < before.num_gens,
            before.live(f),
            before.table@[f]@[g] is None,
            self.well_formed(),
            self.num_gens == before.num_gens,
            self.limit == before.limit,
            self.table@.len() == before.table@.len() + 1,
            self.live_map@ == before.live_map@.push(before.table@.len() as usize),
            self.table@[f]@ == before.table@[f]@.update(g, Some(before.table@.len() as usize)),
            self.table@[before.table@.len() as int]@ == Seq::new(
                before.num_gens as nat,
                |k: int| if k == g { Some(f as usize) } else { None::<usize> },
            ),
            forall|i: int|
                0 <= i < before.table@.len() && i != f ==> self.table@[i] == before.table@[i],
        ensures
            self.scanning(start),
            self.extends(before),
            self.live(before.table@.len() as int),
    {
        let fresh = before.table@.len() as int;
        assert(self.extends(before)) by {
            assert forall|c: int, h: int|
                0 <= c < before.table@.len() && 0 <= h < before.table@[c]@.len()
                    && before.table@[c]@[h] is Some implies #[trigger] self.table@[c]@[h]
                == before.table@[c]@[h] by {
                if c != f {
                    assert(self.table@[c] == before.table@[c]);
                }
            }
        }
        self.lemma_extends_on(before, start);
        assert(self.symmetric()) by {
            assert forall|c: int, h: int|
                0 <= c < self.table@.len() && 0 <= h < self.num_gens implies #[trigger] self.reversed(
                c,
                h,
            ) by {
                if c < fresh {
                    assert(before.reversed(c, h));
                    if c != f {
                        assert(self.table@[c] == before.table@[c]);
                    }
                    if before.table@[c]@[h] is Some {
                        let d = before.table@[c]@[h]->Some_0 as int;
                        if d != f {
                            assert(self.table@[d] == before.table@[d]);
                        }
                    }
                }
            }
        }
        assert forall|d: int| 0 <= d < self.table@.len() && !self.live(d) implies #[trigger] self.row_empty(
            d,
        ) by {
            assert(d < fresh);
            assert(before.row_empty(d));
            assert(self.table@[d] == before.table@[d]);
        }
        self.lemma_extends_descends(before);
        assert(self.class_reached(fresh)) by {
            assert(before.class_reached(f));
            let word = choose|word: Seq<usize>| #[trigger]
                follow(before.rows(), 0, word) == Some(root(before.live_map@, f));
            self.lemma_gained_rows(before);
            lemma_follow_kept(before.rows(), self.rows(), 0, word);
            let longer = word.push(g as usize);
            assert(longer.drop_last() =~= word);
            assert(self.rows()[f][g] == self.table@[f]@[g]);
            assert(follow(self.rows(), 0, longer) == Some(fresh));
        }
        self.lemma_sound_descends(before);
    }

    /// The rows as sequences of entries.
    pub open spec fn rows(&self) -> Seq<Seq<Option<usize>>> {
        Seq::new(self.table@.len(), |c: int| self.table@[c]@)
    }

    /// The entry of `coset` under `g`, if there is one, has its reverse
    /// entry.
    pub open spec fn reversed(&self, coset: int, g: int) -> bool {
        match self.table@[coset]@[g] {
            Some(image) => self.table@[image as int]@[g] == Some(coset as usize),
            None => true,
        }
    }

    /// Every entry has its reverse entry: the generators act as
    /// involutions as far as the table goes.
    pub open spec fn symmetric(&self) -> bool {
        forall|c: int, g: int|
            0 <= c < self.table@.len() && 0 <= g < self.num_gens ==> #[trigger] self.reversed(c, g)
    }

    /// Every entry of `before` is an entry of this table.
    pub open spec fn gained(&self, before: &CosetTable) -> bool {
        &&& self.table@.len() >= before.table@.len()
        &&& forall|c: int, g: int|
            0 <= c < before.table@.len() && 0 <= g < before.table@[c]@.len()
                && before.table@[c]@[g] is Some ==> #[trigger] self.table@[c]@[g]
                == before.table@[c]@[g]
    }

    /// A table that extends a table that extends a third extends the
    /// third.
    pub proof fn lemma_extends_on(&self, middle: &CosetTable, before: &CosetTable)
        requires
            self.extends(middle),
            middle.extends(before),
            middle.well_formed(),
            before.well_formed(),
            self.well_formed(),
            middle.num_gens == before.num_gens,
            self.num_gens == before.num_gens,
        ensures
            self.extends(before),
    {
        assert forall|c: int, g: int|
            0 <= c < before.table@.len() && 0 <= g < before.table@[c]@.len()
                && before.table@[c]@[g] is Some implies #[trigger] self.table@[c]@[g]
            == before.table@[c]@[g] by {
            assert(middle.table@[c]@[g] == before.table@[c]@[g]);
        }
    }

    /// A table that has gained entries has every entry it had.
    pub proof fn lemma_gained_rows(&self, before: &CosetTable)
        requires
            self.gained(before),
            self.well_formed(),
            before.well_formed(),
            self.num_gens == before.num_gens,
        ensures
            has_entries_of(self.rows(), before.rows()),
    {
        assert forall|a: int, g: int|
            0 <= a < before.rows().len() && 0 <= g < before.rows()[a].len() && (
            #[trigger] before.rows()[a][g]) is Some implies g < self.rows()[a].len()
            && self.rows()[a][g] == before.rows()[a][g] by {
            assert(self.table@[a]@[g] == before.table@[a]@[g]);
        }
    }

    /// This table is `before` with more entries and more cosets, none of
    /// them merged.
    pub open spec fn extends(&self, before: &CosetTable) -> bool {
        &&& self.gained(before)
        &&& self.live_map@.len() >= before.live_map@.len()
        &&& forall|c: int|
            0 <= c < self.live_map@.len() ==> #[trigger] self.live_map@[c] == if c
                < before.live_map@.len() {
                before.live_map@[c]
            } else {
                c as usize
            }
    }
}

/// How a scan has ended.
#[derive(Clone, Copy, PartialEq, Eq, Structural, Debug)]
pub enum ScanOutcome {
    /// The word leads from the coset back to it, by the entries that were
    /// there or that the scan has made.
    Filled,
    /// The scan has found two cosets to be one and has merged them.
    Coincidence,
    /// The table was full before the scan could define the cosets it
    /// needed.
    Full,
}

/// The entry of the coset `c` under the generator `g`, if the table `rows`
/// has one.
pub open spec fn entry(rows: Seq<Seq<Option<usize>>>, c: int, g: usize) -> Option<usize> {
    if 0 <= c < rows.len() && g < rows[c].len() {
        rows[c][g as int]
    } else {
        None
    }
}

/// The coset that the letters of `w` lead to from `c`, by the entries of
/// `rows`, if they lead anywhere.
pub open spec fn follow(rows: Seq<Seq<Option<usize>>>, c: int, w: Seq<usize>) -> Option<int>
    decreases w.len(),
{
    if w.len() == 0 {
        Some(c)
    } else {
        match follow(rows, c, w.drop_last()) {
            Some(m) => match entry(rows, m, w.last()) {
                Some(x) => Some(x as int),
                None => None,
            },
            None => None,
        }
    }
}

/// A forest that is continued by cosets that are their own
/// representatives has the representatives it had.
pub proof fn lemma_root_prefix(p: Seq<usize>, q: Seq<usize>, x: int)
    requires
        p.len() <= q.len(),
        forall|c: int| 0 <= c < p.len() ==> q[c] == p[c],
        0 <= x < p.len(),
    ensures
        root(q, x) == root(p, x),
    decreases x,
{
    if (p[x] as int) < x {
        lemma_root_prefix(p, q, p[x] as int);
    }
}

/// The table `after` has every entry of the table `before`.
pub open spec fn has_entries_of(after: Seq<Seq<Option<usize>>>, before: Seq<Seq<Option<usize>>>) -> bool {
    &&& before.len() <= after.len()
    &&& forall|a: int, g: int|
        0 <= a < before.len() && 0 <= g < before[a].len() && (#[trigger] before[a][g]) is Some
            ==> g < after[a].len() && after[a][g] == before[a][g]
}

/// Where a word leads by the entries of a table, it leads by the entries
/// of a table that has all of them.
pub proof fn lemma_follow_kept(
    before: Seq<Seq<Option<usize>>>,
    after: Seq<Seq<Option<usize>>>,
    c: int,
    w: Seq<usize>,
)
    requires
        has_entries_of(after, before),
        follow(before, c, w) is Some,
    ensures
        follow(after, c, w) == follow(before, c, w),
    decreases w.len(),
{
    if w.len() > 0 {
        lemma_follow_kept(before, after, c, w.drop_last());
        let m = follow(before, c, w.drop_last())->Some_0;
        assert(entry(before, m, w.last()) is Some);
        assert(before[m][w.last() as int] is Some);
    }
}

/// A word that leads from `c` to where another word starts leads, joined
/// with that word, to where the other word leads.
pub proof fn lemma_follow_joined(rows: Seq<Seq<Option<usize>>>, c: int, u: Seq<usize>, v: Seq<usize>)
    requires
        follow(rows, c, u) is Some,
    ensures
        follow(rows, c, u + v) == follow(rows, follow(rows, c, u)->Some_0, v),
    decreases v.len(),
{
    if v.len() == 0 {
        assert(u + v =~= u);
    } else {
        lemma_follow_joined(rows, c, u, v.drop_last());
        assert((u + v).drop_last() =~= u + v.drop_last());
        assert((u + v).last() == v.last());
    }
}

/// A word that is led to by one letter leads, with that letter before it,
/// from where the letter starts.
pub proof fn lemma_follow_led(rows: Seq<Seq<Option<usize>>>, c: int, g: usize, m: usize, w: Seq<usize>)
    requires
        entry(rows, c, g) == Some(m),
    ensures
        follow(rows, c, seq![g] + w) == follow(rows, m as int, w),
{
    let one = seq![g];
    assert(one.drop_last() =~= Seq::<usize>::empty());
    assert(follow(rows, c, one.drop_last()) == Some(c));
    assert(one.last() == g);
    assert(follow(rows, c, one) == Some(m as int));
    lemma_follow_joined(rows, c, one, w);
}

/// A row without entries.
pub fn blank_row(num_gens: usize) -> (row: Vec<Option<usize>>)
    ensures
        row@.len() == num_gens,
        forall|g: int| 0 <= g < num_gens ==> row@[g] == None::<usize>,
{
    let mut row: Vec<Option<usize>> = Vec::new();
    let mut g: usize = 0;
    while g < num_gens
        invariant
            g <= num_gens,
            row@.len() == g,
            forall|k: int| 0 <= k < g ==> row@[k] == None::<usize>,
        decreases num_gens - g,
    {
        row.push(None);
        g += 1;
    }
    row
}


impl CosetTable {
    /// The word `word` leads from the coset `a` back to `a`.
    pub open spec fn closed_at(&self, a: int, word: Seq<usize>) -> bool {
        follow(self.rows(), a, word) == Some(a)
    }

    /// The coset `a` has an entry under every generator.
    pub open spec fn complete_at(&self, a: int) -> bool {
        forall|g: int| 0 <= g < self.num_gens ==> (#[trigger] self.table@[a]@[g]) is Some
    }

    /// The coset `a` has an entry under every generator, and every relator
    /// leads from it back to it.
    pub open spec fn finished(&self, a: int, relations: Seq<Seq<usize>>) -> bool {
        &&& self.complete_at(a)
        &&& forall|r: int| 0 <= r < relations.len() ==> self.closed_at(a, #[trigger] relations[r])
    }

    /// Every coset below `upto` that is its own representative is
    /// finished.
    pub open spec fn settled(&self, upto: int, relations: Seq<Seq<usize>>) -> bool {
        forall|a: int|
            0 <= a < upto && a < self.table@.len() && self.live(a) ==> #[trigger] self.finished(
                a,
                relations,
            )
    }

    /// Each of the first `upto` generators of `gens` fixes the coset 0.
    pub open spec fn fixes(&self, gens: Seq<usize>, upto: int) -> bool {
        forall|k: int| 0 <= k < upto ==> self.closed_at(0, seq![#[trigger] gens[k]])
    }

    /// A coset that is its own representative in a table that descends
    /// from another was its own representative there, and keeps what it had:
    /// the words that led from it back to it, and its entries.
    pub proof fn lemma_kept_at(&self, before: &CosetTable, a: int)
        requires
            self.descends(before),
            self.well_formed(),
            before.well_formed(),
            0 <= a < before.table@.len(),
            self.live(a),
        ensures
            before.live(a),
            forall|word: Seq<usize>| #[trigger]
                before.closed_at(a, word) ==> self.closed_at(a, word),
            before.complete_at(a) ==> self.complete_at(a),
    {
        lemma_root_is_live(before.live_map@, a);
        lemma_root_is_live(self.live_map@, root(before.live_map@, a));
        assert(root(self.live_map@, root(before.live_map@, a)) == root(self.live_map@, a));
        assert forall|word: Seq<usize>| #[trigger] before.closed_at(a, word) implies self.closed_at(
            a,
            word,
        ) by {
            self.lemma_follow_descends(before, a, word);
        }
        if before.complete_at(a) {
            assert forall|g: int| 0 <= g < self.num_gens implies (#[trigger] self.table@[a]@[g]) is Some by {
                assert(before.table@[a]@[g] is Some);
                assert(self.passed(before, a, g));
            }
        }
    }

    /// What was settled and fixed in a table is settled and fixed in a
    /// table that descends from it.
    pub proof fn lemma_settled_descends(
        &self,
        before: &CosetTable,
        upto: int,
        relations: Seq<Seq<usize>>,
        gens: Seq<usize>,
        fixed: int,
    )
        requires
            self.descends(before),
            self.well_formed(),
            before.well_formed(),
            0 <= upto <= before.table@.len(),
            before.settled(upto, relations),
            before.fixes(gens, fixed),
        ensures
            self.settled(upto, relations),
            self.fixes(gens, fixed),
    {
        assert forall|a: int|
            0 <= a < upto && a < self.table@.len() && self.live(a) implies #[trigger] self.finished(
            a,
            relations,
        ) by {
            self.lemma_kept_at(before, a);
            assert(before.finished(a, relations));
            assert forall|r: int| 0 <= r < relations.len() implies self.closed_at(
                a,
                #[trigger] relations[r],
            ) by {
                assert(before.closed_at(a, relations[r]));
            }
        }
        assert forall|k: int| 0 <= k < fixed implies self.closed_at(0, seq![#[trigger] gens[k]]) by {
            self.lemma_kept_at(before, 0);
            assert(before.closed_at(0, seq![gens[k]]));
        }
    }

    /// The table with the single coset 0 and no entries is sound.
    pub proof fn lemma_first_sound(&self)
        requires
            self.well_formed(),
            self.table@.len() == 1,
            self.live_map@ == seq![0usize],
            forall|g: int| 0 <= g < self.num_gens ==> self.table@[0]@[g] == None::<usize>,
        ensures
            self.sound(),
    {
        assert forall|c: int, g: int|
            0 <= c < self.table@.len() && 0 <= g < self.num_gens implies #[trigger] self.reversed(
            c,
            g,
        ) by {}
        assert(follow(self.rows(), 0, Seq::<usize>::empty()) == Some(root(self.live_map@, 0)));
        assert(self.class_reached(0));
    }

    /// The cosets that are their own representatives are numbered in their
    /// order: `backward` lists them, and `forward` gives each its number.
    pub open spec fn numbered(&self, forward: Seq<usize>, backward: Seq<usize>) -> bool {
        &&& forward.len() == self.table@.len()
        &&& 1 <= backward.len() <= self.table@.len()
        &&& backward[0] == 0
        &&& forall|k: int|
            0 <= k < backward.len() ==> (#[trigger] backward[k]) < self.table@.len() && self.live(
                backward[k] as int,
            ) && forward[backward[k] as int] == k
        &&& forall|c: int|
            0 <= c < self.table@.len() && self.live(c) ==> (#[trigger] forward[c]) < backward.len()
                && backward[forward[c] as int] == c
    }

    /// The row `row` is the row of the coset `source` with the numbers of
    /// `forward` in place of the cosets.
    pub open spec fn row_numbered(&self, forward: Seq<usize>, source: int, row: Seq<usize>) -> bool {
        &&& row.len() == self.num_gens
        &&& forall|g: int|
            0 <= g < self.num_gens ==> (self.table@[source]@[g] is Some) && ((#[trigger] row[g])
                == forward[self.table@[source]@[g]->Some_0 as int])
    }

    /// The table `t` is this table with the numbers of `forward` in place
    /// of the cosets, row by row in the order of `backward`.
    pub open spec fn compressed_to(
        &self,
        forward: Seq<usize>,
        backward: Seq<usize>,
        t: Seq<Seq<usize>>,
    ) -> bool {
        &&& t.len() == backward.len()
        &&& forall|k: int| 0 <= k < t.len() ==> (#[trigger] t[k]).len() == self.num_gens
        &&& forall|k: int, g: int|
            0 <= k < t.len() && 0 <= g < self.num_gens ==> (self.table@[backward[k] as int]@[g]
                is Some) && ((#[trigger] t[k][g])
                == forward[self.table@[backward[k] as int]@[g]->Some_0 as int])
    }

    /// Where a word leads in this table from a coset that is its own
    /// representative, it leads in the compressed table from the number of
    /// the coset to the number of where it leads.
    pub proof fn lemma_walk_compressed(
        &self,
        forward: Seq<usize>,
        backward: Seq<usize>,
        t: Seq<Seq<usize>>,
        a: int,
        word: Seq<usize>,
    )
        requires
            self.clean(),
            self.numbered(forward, backward),
            self.compressed_to(forward, backward, t),
            0 <= a < self.table@.len(),
            self.live(a),
            follow(self.rows(), a, word) is Some,
        ensures
            0 <= follow(self.rows(), a, word)->Some_0 < self.table@.len(),
            self.live(follow(self.rows(), a, word)->Some_0),
            walk(t, forward[a] as int, word) == forward[follow(self.rows(), a, word)->Some_0],
        decreases word.len(),
    {
        if word.len() > 0 {
            self.lemma_walk_compressed(forward, backward, t, a, word.drop_last());
            let m = follow(self.rows(), a, word.drop_last())->Some_0;
            let g = word.last();
            assert(entry(self.rows(), m, g) is Some);
            assert(self.rows()[m][g as int] == self.table@[m]@[g as int]);
            self.lemma_entries_live(m, g as int);
            let k = forward[m] as int;
            assert(backward[k] == m);
            assert(t[k][g as int] == forward[self.table@[m]@[g as int]->Some_0 as int]);
        }
    }

    /// The compressed table of a sound table in which every coset that is
    /// its own representative is finished, and in which the generators of
    /// the subgroup fix the coset 0, is a coset table of the presentation.
    pub proof fn lemma_compressed(
        &self,
        forward: Seq<usize>,
        backward: Seq<usize>,
        t: Seq<Seq<usize>>,
        relations: Seq<Seq<usize>>,
        sub_gens: Seq<usize>,
    )
        requires
            self.sound(),
            self.numbered(forward, backward),
            self.compressed_to(forward, backward, t),
            self.settled(self.table@.len() as int, relations),
            self.fixes(sub_gens, sub_gens.len() as int),
            forall|k: int| 0 <= k < sub_gens.len() ==> sub_gens[k] < self.num_gens,
        ensures
            is_coset_table(t, self.num_gens as nat, relations, sub_gens),
    {
        assert(forward[0] == 0) by {
            assert(forward[backward[0] as int] == 0);
        }
        assert(in_range(t)) by {
            assert forall|k: int, g: int| 0 <= k < t.len() && 0 <= g < t[k].len() implies (
            #[trigger] t[k][g]) < t.len() by {
                assert(t[k].len() == self.num_gens);
                let image = t[k][g];
                assert(self.table@[backward[k] as int]@[g] is Some);
                self.lemma_entries_live(backward[k] as int, g);
            }
        }
        assert(involutive(t)) by {
            assert forall|k: int, g: int| 0 <= k < t.len() && 0 <= g < t[k].len() implies step(
                t,
                #[trigger] t[k][g] as int,
                g as usize,
            ) == k by {
                let a = backward[k] as int;
                assert(t[k].len() == self.num_gens);
                let image = t[k][g];
                assert(self.table@[a]@[g] is Some);
                self.lemma_entries_live(a, g);
                let x = self.table@[a]@[g]->Some_0 as int;
                assert(self.reversed(a, g));
                let j = forward[x] as int;
                assert(backward[j] == x);
                assert(t[j].len() == self.num_gens);
                let back = t[j][g];
                assert(back == forward[self.table@[x]@[g]->Some_0 as int]);
            }
        }
        assert forall|r: int| 0 <= r < relations.len() implies satisfies(t, #[trigger] relations[r]) by {
            assert forall|k: int| 0 <= k < t.len() implies #[trigger] walk(t, k, relations[r]) == k by {
                let a = backward[k] as int;
                assert(self.finished(a, relations));
                assert(self.closed_at(a, relations[r]));
                self.lemma_walk_compressed(forward, backward, t, a, relations[r]);
            }
        }
        assert(fixes_first(t, sub_gens)) by {
            assert forall|k: int| 0 <= k < sub_gens.len() implies step(t, 0, #[trigger] sub_gens[k])
                == 0 by {
                let word = seq![sub_gens[k]];
                assert(self.closed_at(0, word));
                self.lemma_walk_compressed(forward, backward, t, 0, word);
                assert(word.drop_last() =~= Seq::<usize>::empty());
                assert(walk(t, 0, word.drop_last()) == 0);
                assert(word.last() == sub_gens[k]);
            }
        }
        assert(connected(t)) by {
            assert forall|k: int| 0 <= k < t.len() implies #[trigger] reachable(t, k) by {
                let a = backward[k] as int;
                assert(self.class_reached(a));
                let word = choose|word: Seq<usize>| #[trigger]
                    follow(self.rows(), 0, word) == Some(root(self.live_map@, a));
                self.lemma_walk_compressed(forward, backward, t, 0, word);
                assert(leads_to(t, 0, word, k));
            }
        }
    }
}

/// The map `numbers` holds `number` for `key`.
pub open spec fn holds_at(numbers: Map<usize, usize>, key: usize, number: usize) -> bool {
    numbers.contains_key(key) && numbers[key] == number
}

/// Enumerates the cosets of the subgroup generated by `sub_gens` in the
/// group presented by `num_gens` involutions and the relators `relations`,
/// defining at most `max_cosets` rows on the way.
///
/// The generators of the subgroup are scanned from the coset 0. Then each
/// coset, in the order in which the cosets were defined, is scanned against
/// every relator for as long as it is not merged into another, and is given
/// an image under every generator. The cosets that were not merged are
/// renumbered in their order.
///
/// A table is returned exactly if every letter is a generator and the
/// enumeration defines no more than `max_cosets` rows, as `work_enumerate`
/// says; its rows are the cosets that were not merged, in the order in
/// which they were defined. It is a coset table of the presentation, and it
/// has merged no more than the presentation forces. No relator may be
/// without letters.
pub fn coset_table_bounded(
    num_gens: usize,
    relations: &[&[usize]],
    sub_gens: &[usize],
    max_cosets: usize,
) -> (result: Result<Vec<Vec<usize>>, EnumerationError>)
    requires
        no_empty_word(words_of(relations)),
    ensures
        match result {
            Ok(table) => {
                &&& presentation_fits(words_of(relations), sub_gens@, num_gens as nat)
                &&& work_enumerate(
                    num_gens as int,
                    words_of(relations),
                    sub_gens@,
                    max_cosets as int,
                ) matches Some(work) && is_table_of(work, num_gens as int, rows_of(&table))
                &&& is_coset_table(
                    rows_of(&table),
                    num_gens as nat,
                    words_of(relations),
                    sub_gens@,
                )
                &&& merges_least(rows_of(&table), num_gens as nat, words_of(relations), sub_gens@)
                &&& table@.len() <= max_cosets
            },
            Err(e) => if presentation_fits(words_of(relations), sub_gens@, num_gens as nat) {
                e == EnumerationError::TableFull && work_enumerate(
                    num_gens as int,
                    words_of(relations),
                    sub_gens@,
                    max_cosets as int,
                ) is None
            } else {
                e == EnumerationError::NotAGenerator
            },
        },
        result == Err::<Vec<Vec<usize>>, EnumerationError>(EnumerationError::NotAGenerator)
            <==> !presentation_fits(words_of(relations), sub_gens@, num_gens as nat),
        max_cosets == 0 ==> result is Err,
{
    broadcast use vstd::std_specs::hash::group_hash_axioms;

    if !words_in_alphabet(relations, num_gens) {
        return Err(EnumerationError::NotAGenerator);
    }
    let mut k: usize = 0;
    while k < sub_gens.len()
        invariant
            letters_below(words_of(relations), num_gens as nat),
            k <= sub_gens@.len(),
            forall|j: int| 0 <= j < k ==> sub_gens@[j] < num_gens,
        decreases sub_gens@.len() - k,
    {
        if sub_gens[k] >= num_gens {
            return Err(EnumerationError::NotAGenerator);
        }
        k += 1;
    }
    if max_cosets == 0 {
        return Err(EnumerationError::TableFull);
    }
    let ghost rels = words_of(relations);
    let mut table = CosetTable::init(num_gens, max_cosets);
    let ghost fixed_goal = work_fix(
        work_first(num_gens as int),
        num_gens as int,
        max_cosets as int,
        sub_gens@,
        0,
    );
    let ghost goal = work_enumerate(num_gens as int, rels, sub_gens@, max_cosets as int);
    proof {
        table.lemma_work_first();
        table.lemma_first_sound();
        table.lemma_faithful_first(rels, sub_gens@);
    }

    // what is known of the first coset
    let mut k: usize = 0;
    while k < sub_gens.len()
        invariant
            rels == words_of(relations),
            presentation_fits(rels, sub_gens@, num_gens as nat),
            no_empty_word(rels),
            k <= sub_gens@.len(),
            table.sound(),
            table.faithful(rels, sub_gens@),
            goal == work_enumerate(num_gens as int, rels, sub_gens@, max_cosets as int),
            max_cosets >= 1,
            table.num_gens == num_gens,
            table.limit == max_cosets,
            table.fixes(sub_gens@, k as int),
            work_fix(table.work(), num_gens as int, max_cosets as int, sub_gens@, k as int)
                == fixed_goal,
            goal == match fixed_goal {
                None => None,
                Some(fixed) => work_cosets(fixed, num_gens as int, max_cosets as int, rels, 0),
            },
        decreases sub_gens@.len() - k,
    {
        let word = slice_subrange(sub_gens, k, k + 1);
        let ghost before = table;
        assert(word@ =~= seq![sub_gens@[k as int]]);
        if table.scan_and_fill(0, word) == ScanOutcome::Full {
            return Err(EnumerationError::TableFull);
        }
        proof {
            table.lemma_faithful_fixed(&before, rels, sub_gens@, k as int);
            table.lemma_settled_descends(&before, 0, rels, sub_gens@, k as int);
            assert(root(table.live_map@, 0) == 0);
        }
        k += 1;
    }

    let mut i: usize = 0;
    while i < table.table.len()
        invariant
            rels == words_of(relations),
            presentation_fits(rels, sub_gens@, num_gens as nat),
            no_empty_word(rels),
            table.sound(),
            table.faithful(rels, sub_gens@),
            goal == work_enumerate(num_gens as int, rels, sub_gens@, max_cosets as int),
            max_cosets >= 1,
            table.num_gens == num_gens,
            table.limit == max_cosets,
            table.fixes(sub_gens@, sub_gens@.len() as int),
            table.settled(i as int, rels),
            work_cosets(table.work(), num_gens as int, max_cosets as int, rels, i as int) == goal,
        decreases max_cosets - i,
    {
        proof {
            table.lemma_top_is_live(i as int);
        }
        let ghost at_coset = table.work();
        let ghost scan_goal = work_relators(
            at_coset,
            num_gens as int,
            max_cosets as int,
            rels,
            i as int,
            0,
        );
        if table.live_map[i] == i {
            let mut alive = true;
            let mut r: usize = 0;
            while r < relations.len() && alive
                invariant
                    rels == words_of(relations),
                    presentation_fits(rels, sub_gens@, num_gens as nat),
                    no_empty_word(rels),
                    table.sound(),
                    table.faithful(rels, sub_gens@),
                    goal == work_enumerate(num_gens as int, rels, sub_gens@, max_cosets as int),
                    max_cosets >= 1,
                    table.num_gens == num_gens,
                    table.limit == max_cosets,
                    table.fixes(sub_gens@, sub_gens@.len() as int),
                    table.settled(i as int, rels),
                    i < table.table@.len(),
                    r <= relations@.len(),
                    alive == table.live(i as int),
                    alive ==> forall|q: int| 0 <= q < r ==> table.closed_at(i as int, #[trigger] rels[q]),
                    at_coset.tops[i as int] == i,
                    i < at_coset.rows.len(),
                    i < max_cosets,
                    scan_goal == work_relators(
                        at_coset,
                        num_gens as int,
                        max_cosets as int,
                        rels,
                        i as int,
                        0,
                    ),
                    work_cosets(at_coset, num_gens as int, max_cosets as int, rels, i as int) == goal,
                    work_relators(
                        table.work(),
                        num_gens as int,
                        max_cosets as int,
                        rels,
                        i as int,
                        r as int,
                    ) == scan_goal,
                decreases relations@.len() - r,
            {
                let word: &[usize] = relations[r];
                assert(word@ == rels[r as int]);
                let ghost before = table;
                if table.scan_and_fill(i, word) == ScanOutcome::Full {
                    return Err(EnumerationError::TableFull);
                }
                alive = table.live_map[i] == i;
                proof {
                    before.lemma_top_is_live(i as int);
                    table.lemma_top_is_live(i as int);
                    table.lemma_faithful_relator(&before, i as int, rels, sub_gens@, r as int);
                    table.lemma_settled_descends(&before, i as int, rels, sub_gens@, sub_gens@.len() as int);
                    if alive {
                        table.lemma_kept_at(&before, i as int);
                        assert forall|q: int| 0 <= q < r + 1 implies table.closed_at(
                            i as int,
                            #[trigger] rels[q],
                        ) by {
                            if q < r {
                                assert(before.closed_at(i as int, rels[q]));
                            }
                        }
                    }
                }
                r += 1;
            }
            proof {
                table.lemma_top_is_live(i as int);
            }
            let ghost scanned = table.work();
            let ghost image_goal = work_images(scanned, num_gens as int, max_cosets as int, i as int, 0);
            if alive {
                let mut g: usize = 0;
                while g < num_gens
                    invariant
                        at_coset.tops[i as int] == i,
                        i < at_coset.rows.len(),
                        i < max_cosets,
                        scan_goal == work_relators(
                            at_coset,
                            num_gens as int,
                            max_cosets as int,
                            rels,
                            i as int,
                            0,
                        ),
                        image_goal == work_images(
                            scanned,
                            num_gens as int,
                            max_cosets as int,
                            i as int,
                            0,
                        ),
                        scan_goal == Some(scanned),
                        scanned.tops[i as int] == i,
                        work_cosets(at_coset, num_gens as int, max_cosets as int, rels, i as int)
                            == goal,
                        work_images(
                            table.work(),
                            num_gens as int,
                            max_cosets as int,
                            i as int,
                            g as int,
                        ) == image_goal,
                        rels == words_of(relations),
                        presentation_fits(rels, sub_gens@, num_gens as nat),
                        no_empty_word(rels),
                        table.sound(),
                        table.faithful(rels, sub_gens@),
                        goal == work_enumerate(num_gens as int, rels, sub_gens@, max_cosets as int),
                        max_cosets >= 1,
                        table.num_gens == num_gens,
                        table.limit == max_cosets,
                        table.fixes(sub_gens@, sub_gens@.len() as int),
                        table.settled(i as int, rels),
                        i < table.table@.len(),
                        table.live(i as int),
                        forall|q: int| 0 <= q < rels.len() ==> table.closed_at(i as int, #[trigger] rels[q]),
                        g <= num_gens,
                        forall|h: int| 0 <= h < g ==> (#[trigger] table.table@[i as int]@[h]) is Some,
                    decreases num_gens - g,
                {
                    if table.table[i][g].is_none() {
                        let ghost before = table;
                        if !table.define(i, g) {
                            return Err(EnumerationError::TableFull);
                        }
                        proof {
                            table.lemma_faithful_defined(
                                &before,
                                i as int,
                                g as int,
                                rels,
                                sub_gens@,
                            );
                            table.lemma_defined(&before, &before, i as int, g as int);
                            table.lemma_extends_descends(&before);
                            table.lemma_settled_descends(
                                &before,
                                i as int,
                                rels,
                                sub_gens@,
                                sub_gens@.len() as int,
                            );
                            table.lemma_kept_at(&before, i as int);
                            assert forall|q: int| 0 <= q < rels.len() implies table.closed_at(
                                i as int,
                                #[trigger] rels[q],
                            ) by {
                                assert(before.closed_at(i as int, rels[q]));
                            }
                            assert forall|h: int| 0 <= h < g + 1 implies (
                            #[trigger] table.table@[i as int]@[h]) is Some by {
                                if h < g {
                                    assert(before.table@[i as int]@[h] is Some);
                                }
                            }
                        }
                    }
                    g += 1;
                }
                assert(table.finished(i as int, rels));
            }
        }
        proof {
            assert forall|a: int|
                0 <= a < i + 1 && a < table.table@.len() && table.live(a) implies #[trigger] table.finished(
                a,
                rels,
            ) by {}
        }
        i += 1;
    }

    // number the cosets that are left in their order
    let total = table.table.len();
    let mut forward_map: HashMap<usize, usize> = HashMap::new();
    let mut backward_map: HashMap<usize, usize> = HashMap::new();
    let ghost mut forward: Seq<usize> = Seq::empty();
    let ghost mut backward: Seq<usize> = Seq::empty();
    let mut fresh: usize = 0;
    let mut coset: usize = 0;
    while coset < total
        invariant
            table.well_formed(),
            fresh == backward.len(),
            forall|c: usize|
                c < coset && table.live(c as int) ==> #[trigger] holds_at(forward_map@, c, forward[c as int]),
            forall|q: usize|
                q < fresh ==> #[trigger] holds_at(backward_map@, q, backward[q as int]),
            total == table.table@.len(),
            total <= max_cosets,
            coset <= total,
            forward.len() == coset,
            backward.len() <= coset,
            coset > 0 ==> backward.len() >= 1 && backward[0] == 0,
            forall|q: int|
                0 <= q < backward.len() ==> (#[trigger] backward[q]) < coset && table.live(
                    backward[q] as int,
                ) && forward[backward[q] as int] == q,
            forall|c: int|
                0 <= c < coset && table.live(c) ==> (#[trigger] forward[c]) < backward.len()
                    && backward[forward[c] as int] == c,
            forall|q: int, l: int| 0 <= q < l < backward.len() ==> backward[q] < backward[l],
        decreases total - coset,
    {
        let ghost forward_before = forward_map@;
        let ghost backward_before = backward_map@;
        let ghost numbers_before = forward;
        let ghost cosets_before = backward;
        proof {
            forward = forward.push(fresh);
        }
        if table.live_map[coset] == coset {
            forward_map.insert(coset, fresh);
            backward_map.insert(fresh, coset);
            proof {
                backward = backward.push(coset);
            }
            fresh += 1;
        }
        proof {
            assert forall|c: usize| c < coset + 1 && table.live(c as int) implies #[trigger] holds_at(forward_map@, c, forward[c as int]) by {
                if c < coset {
                    assert(holds_at(forward_before, c, numbers_before[c as int]));
                    assert(forward[c as int] == numbers_before[c as int]);
                }
            }
            assert forall|q: usize| q < fresh implies #[trigger] holds_at(backward_map@, q, backward[q as int]) by {
                if q < cosets_before.len() {
                    assert(holds_at(backward_before, q, cosets_before[q as int]));
                    assert(backward[q as int] == cosets_before[q as int]);
                }
            }
        }
        coset += 1;
    }
    assert(table.numbered(forward, backward));
    let ghost finished = table.work();
    let mut compressed: Vec<Vec<usize>> = Vec::new();
    let mut j: usize = 0;
    while j < fresh
        invariant
            fresh == backward.len(),
            forall|c: usize|
                c < total && table.live(c as int) ==> #[trigger] holds_at(forward_map@, c, forward[c as int]),
            forall|q: usize|
                q < fresh ==> #[trigger] holds_at(backward_map@, q, backward[q as int]),
            table.sound(),
            table.faithful(rels, sub_gens@),
            table.num_gens == num_gens,
            table.settled(table.table@.len() as int, rels),
            table.numbered(forward, backward),
            table.work() == finished,
            total == table.table@.len(),
            total <= max_cosets,
            j <= backward.len(),
            compressed@.len() == j,
            forall|q: int|
                0 <= q < j ==> table.row_numbered(
                    forward,
                    backward[q] as int,
                    (#[trigger] compressed@[q])@,
                ),
        decreases backward.len() - j,
    {
        assert(holds_at(backward_map@, j, backward[j as int]));
        let source = match backward_map.get(&j) {
            Some(coset) => *coset,
            None => 0,
        };
        assert(source == backward[j as int]);
        assert(table.finished(source as int, rels));
        let mut row: Vec<usize> = Vec::new();
        let mut g: usize = 0;
        while g < num_gens
            invariant
                table.clean(),
                forall|c: usize|
                    c < total && table.live(c as int) ==> #[trigger] holds_at(forward_map@, c, forward[c as int]),
                table.well_formed(),
                table.num_gens == num_gens,
                table.complete_at(source as int),
                total == table.table@.len(),
                forward.len() == total,
                source < total,
                g <= num_gens,
                row@.len() == g,
                forall|h: int|
                    0 <= h < g ==> ((#[trigger] row@[h])
                        == forward[table.table@[source as int]@[h]->Some_0 as int]),
            decreases num_gens - g,
        {
            assert(table.table@[source as int]@[g as int] is Some);
            let image = table.table[source][g].unwrap();
            proof {
                table.lemma_entries_live(source as int, g as int);
                assert(holds_at(forward_map@, image, forward[image as int]));
            }
            let number = match forward_map.get(&image) {
                Some(number) => *number,
                None => 0,
            };
            row.push(number);
            g += 1;
        }
        assert(table.row_numbered(forward, source as int, row@));
        compressed.push(row);
        j += 1;
    }
    proof {
        let t = rows_of(&compressed);
        assert(t.len() == backward.len());
        assert(table.compressed_to(forward, backward, t)) by {
            assert forall|q: int, g: int| 0 <= q < t.len() && 0 <= g < table.num_gens implies (
            #[trigger] table.table@[backward[q] as int]@[g]) is Some by {
                assert(table.row_numbered(forward, backward[q] as int, compressed@[q]@));
                let image = compressed@[q]@[g];
            }
            assert forall|q: int| 0 <= q < t.len() implies (#[trigger] t[q]).len() == table.num_gens by {
                assert(table.row_numbered(forward, backward[q] as int, compressed@[q]@));
            }
            assert forall|q: int, g: int|
                0 <= q < t.len() && 0 <= g < table.num_gens implies (table.table@[backward[q] as int]@[g]
                is Some) && ((#[trigger] t[q][g])
                == forward[table.table@[backward[q] as int]@[g]->Some_0 as int]) by {
                assert(table.row_numbered(forward, backward[q] as int, compressed@[q]@));
                assert(t[q] == compressed@[q]@);
                let image = compressed@[q]@[g];
                assert(image == t[q][g]);
            }
        }
        table.lemma_compressed(forward, backward, t, rels, sub_gens@);
        assert forall|c: int|
            0 <= c < table.table@.len() && table.live(c) implies #[trigger] table.complete_at(c) by {
            assert(table.finished(c, rels));
        }
        table.lemma_merges_least(forward, backward, t, rels, sub_gens@);
        table.lemma_renumbers(forward, backward, t);
    }
    Ok(compressed)
}

/// Enumerates the cosets of the subgroup generated by `sub_gens` in the
/// group presented by `num_gens` involutions and the relators `relations`,
/// as `coset_table_bounded` does with `DEFAULT_COSET_LIMIT` rows.
pub fn coset_table(num_gens: usize, relations: &[&[usize]], sub_gens: &[usize]) -> (result: Result<
    Vec<Vec<usize>>,
    EnumerationError,
>)
    requires
        no_empty_word(words_of(relations)),
    ensures
        match result {
            Ok(table) => {
                &&& presentation_fits(words_of(relations), sub_gens@, num_gens as nat)
                &&& work_enumerate(
                    num_gens as int,
                    words_of(relations),
                    sub_gens@,
                    DEFAULT_COSET_LIMIT as int,
                ) matches Some(work) && is_table_of(work, num_gens as int, rows_of(&table))
                &&& is_coset_table(
                    rows_of(&table),
                    num_gens as nat,
                    words_of(relations),
                    sub_gens@,
                )
                &&& merges_least(rows_of(&table), num_gens as nat, words_of(relations), sub_gens@)
                &&& table@.len() <= DEFAULT_COSET_LIMIT
            },
            Err(e) => if presentation_fits(words_of(relations), sub_gens@, num_gens as nat) {
                e == EnumerationError::TableFull && work_enumerate(
                    num_gens as int,
                    words_of(relations),
                    sub_gens@,
                    DEFAULT_COSET_LIMIT as int,
                ) is None
            } else {
                e == EnumerationError::NotAGenerator
            },
        },
        result == Err::<Vec<Vec<usize>>, EnumerationError>(EnumerationError::NotAGenerator)
            <==> !presentation_fits(words_of(relations), sub_gens@, num_gens as nat),
{
    coset_table_bounded(num_gens, relations, sub_gens, DEFAULT_COSET_LIMIT)
}

} // verus!
