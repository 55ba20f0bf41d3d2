//! The enumeration as a function of its input: what the working table
//! holds after every step, and with it when an enumeration gives a table
//! and how the rows of that table are numbered.

use vstd::prelude::*;
use crate::coxeter::{root, lemma_root_is_live, lemma_root_prefix, CosetTable, ScanOutcome};

verus! {

/// What a working table holds: its rows, and for every coset the
/// representative of its class.
pub ghost struct Work {
    pub rows: Seq<Seq<Option<usize>>>,
    pub tops: Seq<int>,
}

/// The rows with the entry of `c` under `g` set to `x`.
pub open spec fn put(rows: Seq<Seq<Option<usize>>>, c: int, g: int, x: Option<usize>) -> Seq<
    Seq<Option<usize>>,
> {
    rows.update(c, rows[c].update(g, x))
}

/// The first table: the coset 0 without entries.
pub open spec fn work_first(n: int) -> Work {
    Work { rows: seq![Seq::new(n as nat, |k: int| None::<usize>)], tops: seq![0int] }
}

/// A fresh coset is defined as the image of `c` under `g`, unless the
/// table has `limit` rows.
pub open spec fn work_define(w: Work, n: int, limit: int, c: int, g: int) -> Work {
    if w.rows.len() >= limit {
        w
    } else {
        let fresh = w.rows.len() as int;
        Work {
            rows: put(w.rows, c, g, Some(fresh as usize)).push(
                Seq::new(n as nat, |k: int| if k == g { Some(c as usize) } else { None::<usize> }),
            ),
            tops: w.tops.push(fresh),
        }
    }
}

/// The classes of `c1` and `c2` are merged: the larger representative
/// joins the smaller one and the queue.
pub open spec fn work_merge(w: Work, queue: Seq<usize>, c1: int, c2: int) -> (Work, Seq<usize>) {
    let r1 = w.tops[c1];
    let r2 = w.tops[c2];
    if r1 == r2 {
        (w, queue)
    } else {
        let s = if r1 <= r2 { r1 } else { r2 };
        let t = if r1 <= r2 { r2 } else { r1 };
        (
            Work {
                rows: w.rows,
                tops: Seq::new(w.tops.len(), |x: int| if w.tops[x] == t { s } else { w.tops[x] }),
            },
            queue.push(t as usize),
        )
    }
}

/// The entry of the merged coset `e` under `g` is folded into the row of
/// its representative.
pub open spec fn work_fold_entry(w: Work, queue: Seq<usize>, e: int, g: int) -> (Work, Seq<usize>) {
    match w.rows[e][g] {
        None => (w, queue),
        Some(f) => {
            let rows = put(put(w.rows, e, g, None), f as int, g, None);
            let cleared = Work { rows, tops: w.tops };
            let top = w.tops[e];
            let low = w.tops[f as int];
            match rows[top][g] {
                Some(x) => work_merge(cleared, queue, low, x as int),
                None => match rows[low][g] {
                    Some(x) => work_merge(cleared, queue, top, x as int),
                    None => (
                        Work {
                            rows: put(
                                put(rows, top, g, Some(top_as(low))),
                                low,
                                g,
                                Some(top_as(top)),
                            ),
                            tops: w.tops,
                        },
                        queue,
                    ),
                },
            }
        },
    }
}

/// A coset as an entry of the table.
pub open spec fn top_as(c: int) -> usize {
    c as usize
}

/// The entries of the merged coset `e` from `g` on are folded.
pub open spec fn work_fold_row(w: Work, queue: Seq<usize>, n: int, e: int, g: int) -> (
    Work,
    Seq<usize>,
)
    decreases n - g,
{
    if g >= n {
        (w, queue)
    } else {
        let step = work_fold_entry(w, queue, e, g);
        work_fold_row(step.0, step.1, n, e, g + 1)
    }
}

/// The rows of the queued cosets are folded, one coset after the other,
/// for as long as cosets are queued. `fuel` bounds the number of cosets.
pub open spec fn work_coincide(w: Work, queue: Seq<usize>, n: int, fuel: nat) -> Work
    decreases fuel,
{
    if fuel == 0 || queue.len() == 0 {
        w
    } else {
        let step = work_fold_row(w, queue.drop_first(), n, queue[0] as int, 0);
        work_coincide(step.0, step.1, n, (fuel - 1) as nat)
    }
}

/// The coincidence of `c1` and `c2` is processed. No more cosets are
/// folded than the table has rows.
pub open spec fn work_coincidence(w: Work, n: int, c1: int, c2: int) -> Work {
    let merged = work_merge(w, Seq::empty(), c1, c2);
    work_coincide(merged.0, merged.1, n, w.rows.len())
}

/// How far a scan of `word` goes forwards from `f` at position `i`: the
/// position and the coset at which it ends.
pub open spec fn scan_forward(
    rows: Seq<Seq<Option<usize>>>,
    word: Seq<usize>,
    i: int,
    hi: int,
    f: int,
) -> (int, int)
    decreases hi - i,
{
    if i < hi && rows[f][word[i] as int] is Some {
        scan_forward(rows, word, i + 1, hi, rows[f][word[i] as int]->Some_0 as int)
    } else {
        (i, f)
    }
}

/// How far a scan of `word` goes backwards from `b` at position `hi`.
pub open spec fn scan_backward(
    rows: Seq<Seq<Option<usize>>>,
    word: Seq<usize>,
    i: int,
    hi: int,
    b: int,
) -> (int, int)
    decreases hi - i,
{
    if hi > i && rows[b][word[hi - 1] as int] is Some {
        scan_backward(rows, word, i, hi - 1, rows[b][word[hi - 1] as int]->Some_0 as int)
    } else {
        (hi, b)
    }
}

/// The scans have met at `f` and `b`: in one coset, or in two, whose
/// coincidence is processed.
pub open spec fn work_meet(w: Work, n: int, f: int, b: int) -> (Work, ScanOutcome) {
    if f != b {
        (work_coincidence(w, n, f, b), ScanOutcome::Coincidence)
    } else {
        (w, ScanOutcome::Filled)
    }
}

/// The scan of `word` goes on from the forward scan at `f`, position `i`,
/// and the backward scan at `b`, position `hi`. The scans never leave the
/// part of the word between `i` and `hi`.
pub open spec fn work_scan(
    w: Work,
    n: int,
    limit: int,
    word: Seq<usize>,
    i: int,
    hi: int,
    f: int,
    b: int,
) -> (Work, ScanOutcome)
    decreases hi - i,
{
    let front = scan_forward(w.rows, word, i, hi, f);
    if front.0 == hi {
        work_meet(w, n, front.1, b)
    } else {
        let back = scan_backward(w.rows, word, front.0, hi, b);
        if back.0 == front.0 {
            work_meet(w, n, front.1, back.1)
        } else if back.0 - front.0 == 1 {
            let g = word[front.0] as int;
            (
                Work {
                    rows: put(
                        put(w.rows, front.1, g, Some(top_as(back.1))),
                        back.1,
                        g,
                        Some(top_as(front.1)),
                    ),
                    tops: w.tops,
                },
                ScanOutcome::Filled,
            )
        } else if w.rows.len() >= limit || front.0 < i || back.0 > hi || back.0 < front.0 {
            (w, ScanOutcome::Full)
        } else {
            work_scan(
                work_define(w, n, limit, front.1, word[front.0] as int),
                n,
                limit,
                word,
                front.0 + 1,
                back.0,
                w.rows.len() as int,
                back.1,
            )
        }
    }
}

/// The scan of `word` from `coset`.
pub open spec fn work_scan_from(w: Work, n: int, limit: int, coset: int, word: Seq<usize>) -> (
    Work,
    ScanOutcome,
) {
    work_scan(w, n, limit, word, 0, word.len() as int, coset, coset)
}

/// The generators of the subgroup from `k` on are scanned from the coset
/// 0; `None` if the table is full.
pub open spec fn work_fix(w: Work, n: int, limit: int, sub_gens: Seq<usize>, k: int) -> Option<Work>
    decreases sub_gens.len() - k,
{
    if k >= sub_gens.len() {
        Some(w)
    } else {
        let step = work_scan_from(w, n, limit, 0, seq![sub_gens[k]]);
        if step.1 == ScanOutcome::Full {
            None
        } else {
            work_fix(step.0, n, limit, sub_gens, k + 1)
        }
    }
}

/// The relators from `r` on are scanned from the coset `i` for as long as
/// it is its own representative; `None` if the table is full.
pub open spec fn work_relators(
    w: Work,
    n: int,
    limit: int,
    relations: Seq<Seq<usize>>,
    i: int,
    r: int,
) -> Option<Work>
    decreases relations.len() - r,
{
    if r >= relations.len() || w.tops[i] != i {
        Some(w)
    } else {
        let step = work_scan_from(w, n, limit, i, relations[r]);
        if step.1 == ScanOutcome::Full {
            None
        } else {
            work_relators(step.0, n, limit, relations, i, r + 1)
        }
    }
}

/// The coset `i` is given an image under every generator from `g` on
/// under which it has none; `None` if the table is full.
pub open spec fn work_images(w: Work, n: int, limit: int, i: int, g: int) -> Option<Work>
    decreases n - g,
{
    if g >= n {
        Some(w)
    } else if w.rows[i][g] is None {
        if w.rows.len() >= limit {
            None
        } else {
            work_images(work_define(w, n, limit, i, g), n, limit, i, g + 1)
        }
    } else {
        work_images(w, n, limit, i, g + 1)
    }
}

/// The cosets from `i` on are finished, in the order in which they were
/// defined; `None` if the table is full.
pub open spec fn work_cosets(w: Work, n: int, limit: int, relations: Seq<Seq<usize>>, i: int) -> Option<
    Work,
>
    decreases limit - i,
{
    if i >= w.rows.len() || i >= limit {
        Some(w)
    } else if w.tops[i] != i {
        work_cosets(w, n, limit, relations, i + 1)
    } else {
        match work_relators(w, n, limit, relations, i, 0) {
            None => None,
            Some(scanned) => if scanned.tops[i] != i {
                work_cosets(scanned, n, limit, relations, i + 1)
            } else {
                match work_images(scanned, n, limit, i, 0) {
                    None => None,
                    Some(filled) => work_cosets(filled, n, limit, relations, i + 1),
                }
            },
        }
    }
}

/// The working table at the end of an enumeration that defines at most
/// `limit` rows; `None` if it would define more.
pub open spec fn work_enumerate(n: int, relations: Seq<Seq<usize>>, sub_gens: Seq<usize>, limit: int) -> Option<
    Work,
> {
    if limit <= 0 {
        None
    } else {
        match work_fix(work_first(n), n, limit, sub_gens, 0) {
            None => None,
            Some(fixed) => work_cosets(fixed, n, limit, relations, 0),
        }
    }
}

/// `t` is the working table `w` without the merged cosets: `backward`
/// lists, in the order in which they were defined, the cosets that are
/// their own representatives, `forward` gives each of them its place in
/// that list, and row `k` of `t` is the row of the coset `backward[k]`
/// with the places of the cosets in place of the cosets.
pub open spec fn renumbers(
    w: Work,
    n: int,
    forward: Seq<usize>,
    backward: Seq<usize>,
    t: Seq<Seq<usize>>,
) -> bool {
    &&& forward.len() == w.rows.len()
    &&& forall|k: int, l: int| 0 <= k < l < backward.len() ==> backward[k] < backward[l]
    &&& forall|k: int|
        0 <= k < backward.len() ==> (#[trigger] backward[k]) < w.rows.len()
            && w.tops[backward[k] as int] == backward[k] && forward[backward[k] as int] == k
    &&& forall|c: int|
        0 <= c < w.rows.len() && w.tops[c] == c ==> (#[trigger] forward[c]) < backward.len()
            && backward[forward[c] as int] == c
    &&& t.len() == backward.len()
    &&& forall|k: int| 0 <= k < t.len() ==> (#[trigger] t[k]).len() == n
    &&& forall|k: int, g: int|
        0 <= k < t.len() && 0 <= g < n ==> #[trigger] entry_renumbered(
            w,
            forward,
            backward,
            t,
            k,
            g,
        )
}

/// The entry of row `k` of `t` under `g` is the place of the entry that
/// the coset `backward[k]` has under `g`.
pub open spec fn entry_renumbered(
    w: Work,
    forward: Seq<usize>,
    backward: Seq<usize>,
    t: Seq<Seq<usize>>,
    k: int,
    g: int,
) -> bool {
    &&& w.rows[backward[k] as int][g] is Some
    &&& t[k][g] == forward[w.rows[backward[k] as int][g]->Some_0 as int]
}

/// `t` is the working table `w` without the merged cosets, the others
/// numbered in the order in which they were defined.
pub open spec fn is_table_of(w: Work, n: int, t: Seq<Seq<usize>>) -> bool {
    exists|forward: Seq<usize>, backward: Seq<usize>| #[trigger]
        renumbers(w, n, forward, backward, t)
}

impl CosetTable {
    /// What the table holds.
    pub open spec fn work(&self) -> Work {
        Work {
            rows: self.rows(),
            tops: Seq::new(self.live_map@.len(), |c: int| root(self.live_map@, c)),
        }
    }

    /// A definition holds what `work_define` says.
    pub proof fn lemma_work_defined(&self, before: &CosetTable, c: int, g: int)
        requires
            before.well_formed(),
            self.well_formed(),
            0 <= c < before.table@.len(),
            0 <= g < before.num_gens,
            before.table@.len() < before.limit,
            self.num_gens == before.num_gens,
            self.limit == before.limit,
            self.table@.len() == before.table@.len() + 1,
            self.live_map@ == before.live_map@.push(before.table@.len() as usize),
            self.table@[c]@ == before.table@[c]@.update(g, Some(before.table@.len() as usize)),
            self.table@[before.table@.len() as int]@ == Seq::new(
                before.num_gens as nat,
                |k: int| if k == g { Some(c as usize) } else { None::<usize> },
            ),
            forall|i: int|
                0 <= i < before.table@.len() && i != c ==> self.table@[i] == before.table@[i],
        ensures
            self.work() == work_define(
                before.work(),
                before.num_gens as int,
                before.limit as int,
                c,
                g,
            ),
    {
        let target = work_define(before.work(), before.num_gens as int, before.limit as int, c, g);
        let fresh = before.table@.len() as int;
        assert forall|x: int| 0 <= x < self.table@.len() implies self.rows()[x] == target.rows[x] by {
            if x < fresh && x != c {
                assert(self.table@[x] == before.table@[x]);
            }
            assert(self.rows()[x] =~= target.rows[x]);
        }
        assert(self.rows() =~= target.rows);
        assert forall|x: int| 0 <= x < self.live_map@.len() implies self.work().tops[x]
            == target.tops[x] by {
            if x < fresh {
                lemma_root_prefix(before.live_map@, self.live_map@, x);
            }
        }
        assert(self.work().tops =~= target.tops);
    }

    /// The table with the single coset 0 and no entries holds what the
    /// first table holds.
    pub proof fn lemma_work_first(&self)
        requires
            self.well_formed(),
            self.table@.len() == 1,
            self.live_map@ == seq![0usize],
            forall|g: int| 0 <= g < self.num_gens ==> self.table@[0]@[g] == None::<usize>,
        ensures
            self.work() == work_first(self.num_gens as int),
    {
        let target = work_first(self.num_gens as int);
        assert(self.rows()[0] =~= target.rows[0]);
        assert(self.rows() =~= target.rows);
        assert(self.work().tops =~= target.tops);
    }

    /// A coset is its own representative exactly if it points at itself.
    pub proof fn lemma_top_is_live(&self, c: int)
        requires
            self.well_formed(),
            0 <= c < self.table@.len(),
        ensures
            (self.work().tops[c] == c) == (self.live_map@[c] == c),
    {
        if self.live_map@[c] != c {
            lemma_root_is_live(self.live_map@, self.live_map@[c] as int);
        }
    }

    /// The compressed table is the table of what the working table holds.
    pub proof fn lemma_renumbers(&self, forward: Seq<usize>, backward: Seq<usize>, t: Seq<Seq<usize>>)
        requires
            self.well_formed(),
            self.numbered(forward, backward),
            self.compressed_to(forward, backward, t),
            forall|k: int, l: int| 0 <= k < l < backward.len() ==> backward[k] < backward[l],
        ensures
            is_table_of(self.work(), self.num_gens as int, t),
    {
        let w = self.work();
        assert forall|k: int| 0 <= k < backward.len() implies (#[trigger] backward[k]) < w.rows.len()
            && w.tops[backward[k] as int] == backward[k] && forward[backward[k] as int] == k by {
            self.lemma_top_is_live(backward[k] as int);
        }
        assert forall|c: int| 0 <= c < w.rows.len() && w.tops[c] == c implies (
        #[trigger] forward[c]) < backward.len() && backward[forward[c] as int] == c by {
            self.lemma_top_is_live(c);
        }
        assert forall|k: int, g: int|
            0 <= k < t.len() && 0 <= g < self.num_gens implies #[trigger] entry_renumbered(
            w,
            forward,
            backward,
            t,
            k,
            g,
        ) by {
            let image = t[k][g];
            assert(backward[k] < self.table@.len());
            assert(w.rows[backward[k] as int] == self.table@[backward[k] as int]@);
            assert(self.table@[backward[k] as int]@[g] is Some);
            assert(t[k][g] == forward[self.table@[backward[k] as int]@[g]->Some_0 as int]);
        }
        assert(forward.len() == w.rows.len());
        assert(t.len() == backward.len());
        assert forall|k: int| 0 <= k < t.len() implies (#[trigger] t[k]).len()
            == self.num_gens as int by {}
        assert(renumbers(w, self.num_gens as int, forward, backward, t));
    }

    /// A table with the rows `rows` and the classes of `before` holds
    /// them.
    pub proof fn lemma_work_rows(&self, before: &CosetTable, rows: Seq<Seq<Option<usize>>>)
        requires
            self.well_formed(),
            before.well_formed(),
            self.num_gens == before.num_gens,
            rows.len() == self.table@.len(),
            self.live_map@.len() == before.live_map@.len(),
            forall|x: int|
                0 <= x < before.live_map@.len() ==> root(self.live_map@, x) == root(
                    before.live_map@,
                    x,
                ),
            forall|c: int| 0 <= c < rows.len() ==> (#[trigger] rows[c]).len() == self.num_gens,
            forall|c: int, g: int|
                0 <= c < rows.len() && 0 <= g < self.num_gens ==> (#[trigger] self.table@[c]@[g])
                    == rows[c][g],
        ensures
            self.work() == (Work { rows, tops: before.work().tops }),
    {
        assert forall|c: int| 0 <= c < rows.len() implies self.rows()[c] == rows[c] by {
            assert(self.table@[c]@.len() == self.num_gens);
            assert forall|g: int| 0 <= g < self.num_gens implies self.rows()[c][g] == rows[c][g] by {
                assert(self.table@[c]@[g] == rows[c][g]);
            }
            assert(self.rows()[c] =~= rows[c]);
        }
        assert(self.rows() =~= rows);
        assert(self.work().tops =~= before.work().tops);
    }
}

} // verus!
