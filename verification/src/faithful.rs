//! Why an enumeration merges no more cosets than it must.
//!
//! Whatever a working table knows holds in every action that respects the
//! presentation: the cosets can be sent to the rows of the action such
//! that the coset 0 goes to the row 0, a merged coset goes where its
//! representative goes, and every entry of the table is an entry of the
//! action. Definitions, deductions and coincidences keep this so, and the
//! finished table therefore tells apart whatever any such action tells
//! apart.

use vstd::prelude::*;
use crate::coxeter::{follow, entry, lemma_root_is_live, lemma_root_prefix, root, CosetTable};
use crate::table::{
    acts, lemma_step_acts, lemma_walk_injective, lemma_walk_joined, lemma_walk_push,
    merges_least, refines, respects, satisfies, step, walk, word_below,
};

verus! {

impl CosetTable {
    /// If the coset `c` has an entry under `g`, the row that stands for
    /// `c` has the row that stands for the entry.
    pub open spec fn carried(&self, u: Seq<Seq<usize>>, phi: Seq<int>, c: int, g: int) -> bool {
        match self.table@[c]@[g] {
            Some(d) => step(u, phi[c], g as usize) == phi[d as int],
            None => true,
        }
    }

    /// `phi` sends the cosets to rows of `u`: the coset 0 to the row 0, a
    /// merged coset where its representative goes, and every entry of the
    /// table to an entry of `u`.
    #[verifier::opaque]
    pub open spec fn mapped(&self, u: Seq<Seq<usize>>, phi: Seq<int>) -> bool {
        &&& phi.len() == self.table@.len()
        &&& phi[0] == 0
        &&& forall|c: int| 0 <= c < phi.len() ==> 0 <= #[trigger] phi[c] < u.len()
        &&& forall|c: int|
            0 <= c < phi.len() ==> phi[#[trigger] root(self.live_map@, c)] == phi[c]
        &&& forall|c: int, g: int|
            0 <= c < self.table@.len() && 0 <= g < self.num_gens ==> #[trigger] self.carried(
                u,
                phi,
                c,
                g,
            )
    }

    /// The cosets can be sent to rows of `u` such that the coset `c` goes
    /// to the row `x`.
    pub open spec fn maps_at(&self, u: Seq<Seq<usize>>, c: int, x: int) -> bool {
        exists|phi: Seq<int>| #[trigger] self.mapped(u, phi) && phi[c] == x
    }

    /// The cosets can be sent to rows of `u`.
    pub open spec fn maps_into(&self, u: Seq<Seq<usize>>) -> bool {
        exists|phi: Seq<int>| #[trigger] self.mapped(u, phi)
    }

    /// The table with the single coset 0 and no entries is sent to the row
    /// 0 of any action.
    pub proof fn lemma_mapped_first(&self, u: Seq<Seq<usize>>)
        requires
            self.well_formed(),
            self.table@.len() == 1,
            forall|g: int| 0 <= g < self.num_gens ==> self.table@[0]@[g] == None::<usize>,
            u.len() >= 1,
        ensures
            self.mapped(u, seq![0int]),
    {
        reveal(CosetTable::mapped);
        let phi = seq![0int];
        assert forall|c: int| 0 <= c < phi.len() implies phi[#[trigger] root(self.live_map@, c)]
            == phi[c] by {
            lemma_root_is_live(self.live_map@, c);
        }
    }

    /// Two cosets that go to one row can be merged.
    pub proof fn lemma_mapped_merged(
        &self,
        before: &CosetTable,
        u: Seq<Seq<usize>>,
        phi: Seq<int>,
        c1: int,
        c2: int,
    )
        requires
            before.well_formed(),
            before.mapped(u, phi),
            0 <= c1 < before.table@.len(),
            0 <= c2 < before.table@.len(),
            phi[c1] == phi[c2],
            self.table == before.table,
            self.num_gens == before.num_gens,
            self.live_map@.len() == before.live_map@.len(),
            ({
                let r1 = root(before.live_map@, c1);
                let r2 = root(before.live_map@, c2);
                let s = if r1 <= r2 { r1 } else { r2 };
                let t = if r1 <= r2 { r2 } else { r1 };
                forall|x: int|
                    0 <= x < before.live_map@.len() ==> root(self.live_map@, x) == if root(
                        before.live_map@,
                        x,
                    ) == t {
                        s
                    } else {
                        root(before.live_map@, x)
                    }
            }),
        ensures
            self.mapped(u, phi),
    {
        reveal(CosetTable::mapped);
        let r1 = root(before.live_map@, c1);
        let r2 = root(before.live_map@, c2);
        assert(phi[r1] == phi[c1]);
        assert(phi[r2] == phi[c2]);
        assert forall|c: int| 0 <= c < phi.len() implies phi[#[trigger] root(self.live_map@, c)]
            == phi[c] by {
            assert(phi[root(before.live_map@, c)] == phi[c]);
        }
        assert forall|c: int, g: int|
            0 <= c < self.table@.len() && 0 <= g < self.num_gens implies #[trigger] self.carried(
            u,
            phi,
            c,
            g,
        ) by {
            assert(before.carried(u, phi, c, g));
        }
    }

    /// Entries can be taken out.
    pub proof fn lemma_mapped_cleared(
        &self,
        before: &CosetTable,
        u: Seq<Seq<usize>>,
        phi: Seq<int>,
        e: int,
        f: int,
        g: int,
    )
        requires
            before.well_formed(),
            before.mapped(u, phi),
            self.cleared_from(before, e, f, g),
        ensures
            self.mapped(u, phi),
    {
        reveal(CosetTable::mapped);
        assert forall|c: int| 0 <= c < phi.len() implies phi[#[trigger] root(self.live_map@, c)]
            == phi[c] by {
            assert(root(self.live_map@, c) == root(before.live_map@, c));
            assert(phi[root(before.live_map@, c)] == phi[c]);
        }
        assert forall|c: int, h: int|
            0 <= c < self.table@.len() && 0 <= h < self.num_gens implies #[trigger] self.carried(
            u,
            phi,
            c,
            h,
        ) by {
            assert(before.carried(u, phi, c, h));
            assert(self.table@[c]@[h] == if h == g && (c == e || c == f) {
                None
            } else {
                before.table@[c]@[h]
            });
        }
    }

    /// Two cosets can get each other under `g` if the row of the one has
    /// the row of the other under `g`.
    pub proof fn lemma_mapped_linked(
        &self,
        before: &CosetTable,
        u: Seq<Seq<usize>>,
        phi: Seq<int>,
        a: int,
        b: int,
        g: int,
    )
        requires
            before.mapped(u, phi),
            acts(u, before.num_gens as nat),
            0 <= a < before.table@.len(),
            0 <= b < before.table@.len(),
            0 <= g < before.num_gens,
            step(u, phi[a], g as usize) == phi[b],
            self.num_gens == before.num_gens,
            self.table@.len() == before.table@.len(),
            self.live_map@ == before.live_map@,
            forall|c: int, h: int|
                0 <= c < self.table@.len() && 0 <= h < self.num_gens ==> ((
                #[trigger] self.table@[c]@[h]) == before.table@[c]@[h]) || (h == g && c == a
                    && self.table@[c]@[h] is Some && self.table@[c]@[h]->Some_0 == b) || (h == g
                    && c == b && self.table@[c]@[h] is Some && self.table@[c]@[h]->Some_0 == a),
        ensures
            self.mapped(u, phi),
    {
        reveal(CosetTable::mapped);
        assert(0 <= phi[a] < u.len());
        lemma_step_acts(u, before.num_gens as nat, phi[a], g as usize);
        assert forall|c: int| 0 <= c < phi.len() implies phi[#[trigger] root(self.live_map@, c)]
            == phi[c] by {
            assert(phi[root(before.live_map@, c)] == phi[c]);
        }
        assert forall|c: int, h: int|
            0 <= c < self.table@.len() && 0 <= h < self.num_gens implies #[trigger] self.carried(
            u,
            phi,
            c,
            h,
        ) by {
            assert(before.carried(u, phi, c, h));
            let now = self.table@[c]@[h];
            if now == before.table@[c]@[h] {
            } else if h == g && c == a && now is Some && now->Some_0 == b {
                assert(step(u, phi[c], h as usize) == phi[b]);
            } else {
                assert(h == g && c == b && now is Some && now->Some_0 == a);
                assert(step(u, phi[b], g as usize) == phi[a]);
            }
        }
    }

    /// A fresh coset that is defined as the image of `c` under `g` goes to
    /// the row that the row of `c` has under `g`.
    pub proof fn lemma_mapped_defined(
        &self,
        before: &CosetTable,
        u: Seq<Seq<usize>>,
        phi: Seq<int>,
        c: int,
        g: int,
    )
        requires
            before.well_formed(),
            before.mapped(u, phi),
            acts(u, before.num_gens as nat),
            0 <= c < before.table@.len(),
            0 <= g < before.num_gens,
            self.num_gens == before.num_gens,
            self.table@.len() == before.table@.len() + 1,
            self.live_map@ == before.live_map@.push(before.table@.len() as usize),
            self.table@[c]@ == before.table@[c]@.update(g, Some(before.table@.len() as usize)),
            self.table@[before.table@.len() as int]@ == Seq::new(
                before.num_gens as nat,
                |k: int| if k == g { Some(c as usize) } else { None::<usize> },
            ),
            forall|i: int|
                0 <= i < before.table@.len() && i != c ==> self.table@[i] == before.table@[i],
        ensures
            self.mapped(u, phi.push(step(u, phi[c], g as usize))),
            phi.push(step(u, phi[c], g as usize)).take(phi.len() as int) == phi,
    {
        reveal(CosetTable::mapped);
        let fresh = before.table@.len() as int;
        let longer = phi.push(step(u, phi[c], g as usize));
        assert(longer.take(phi.len() as int) =~= phi);
        assert(0 <= phi[c] < u.len());
        lemma_step_acts(u, before.num_gens as nat, phi[c], g as usize);
        assert forall|x: int| 0 <= x < longer.len() implies longer[#[trigger] root(
            self.live_map@,
            x,
        )] == longer[x] by {
            if x < fresh {
                lemma_root_prefix(before.live_map@, self.live_map@, x);
                lemma_root_is_live(before.live_map@, x);
                assert(phi[root(before.live_map@, x)] == phi[x]);
            }
        }
        assert forall|x: int, h: int|
            0 <= x < self.table@.len() && 0 <= h < self.num_gens implies #[trigger] self.carried(
            u,
            longer,
            x,
            h,
        ) by {
            if x < fresh {
                assert(before.carried(u, phi, x, h));
                if x != c {
                    assert(self.table@[x] == before.table@[x]);
                }
            }
        }
    }

    /// What the entry of the merged coset `e` under `g`, which was `f`,
    /// says of the rows of their representatives `top` and `low`.
    pub proof fn lemma_fold_points(
        &self,
        found: &CosetTable,
        u: Seq<Seq<usize>>,
        phi: Seq<int>,
        e: int,
        f: int,
        g: int,
        top: int,
        low: int,
    )
        requires
            self.well_formed(),
            found.well_formed(),
            self.mapped(u, phi),
            found.mapped(u, phi),
            acts(u, self.num_gens as nat),
            found.num_gens == self.num_gens,
            found.table@.len() == self.table@.len(),
            0 <= e < self.table@.len(),
            0 <= f < self.table@.len(),
            0 <= g < self.num_gens,
            self.table@[e]@[g] is Some,
            self.table@[e]@[g]->Some_0 == f,
            top == root(found.live_map@, e),
            low == root(found.live_map@, f),
        ensures
            0 <= top < self.table@.len(),
            0 <= low < self.table@.len(),
            step(u, phi[top], g as usize) == phi[low],
            step(u, phi[low], g as usize) == phi[top],
            found.table@[top]@[g] is Some ==> phi[found.table@[top]@[g]->Some_0 as int] == phi[low],
            found.table@[low]@[g] is Some ==> phi[found.table@[low]@[g]->Some_0 as int] == phi[top],
    {
        reveal(CosetTable::mapped);
        lemma_root_is_live(found.live_map@, e);
        lemma_root_is_live(found.live_map@, f);
        assert(phi[root(found.live_map@, e)] == phi[e]);
        assert(phi[root(found.live_map@, f)] == phi[f]);
        assert(self.carried(u, phi, e, g));
        assert(0 <= phi[e] < u.len());
        lemma_step_acts(u, self.num_gens as nat, phi[e], g as usize);
        assert(found.carried(u, phi, top, g));
        assert(found.carried(u, phi, low, g));
    }

    /// Where a scan has met, the rows meet: if the word leads in `u` from
    /// the row of `coset` back to it, then the rows of the two cosets at
    /// which the scans have met in one place are one row, and of two
    /// cosets that one letter still parts, the row of the one has the row
    /// of the other under that letter.
    pub proof fn lemma_scan_closes(
        &self,
        u: Seq<Seq<usize>>,
        phi: Seq<int>,
        coset: int,
        f: int,
        b: int,
        word: Seq<usize>,
        i: int,
        hi: int,
    )
        requires
            self.well_formed(),
            self.mapped(u, phi),
            acts(u, self.num_gens as nat),
            word_below(word, self.num_gens as nat),
            0 <= i <= hi <= word.len(),
            hi - i <= 1,
            0 <= coset < self.table@.len(),
            0 <= b < self.table@.len(),
            follow(self.rows(), coset, word.take(i)) == Some(f),
            follow(self.rows(), b, word.subrange(hi, word.len() as int)) == Some(coset),
            walk(u, phi[coset], word) == phi[coset],
        ensures
            0 <= f < self.table@.len(),
            i == hi ==> phi[f] == phi[b],
            hi == i + 1 ==> step(u, phi[f], word[i]) == phi[b],
    {
        let rest = word.subrange(hi, word.len() as int);
        let x = phi[coset];
        self.lemma_follow_mapped(u, phi, coset, word.take(i));
        self.lemma_follow_mapped(u, phi, b, rest);
        assert(0 <= phi[f] < u.len() && 0 <= phi[b] < u.len() && 0 <= x < u.len()) by {
            reveal(CosetTable::mapped);
        }
        assert(word_below(rest, self.num_gens as nat)) by {
            assert forall|k: int| 0 <= k < rest.len() implies (#[trigger] rest[k])
                < self.num_gens by {
                assert(rest[k] == word[hi + k]);
            }
        }
        if i == hi {
            assert(word.take(i) + rest =~= word);
            lemma_walk_joined(u, x, word.take(i), rest);
            lemma_walk_injective(u, self.num_gens as nat, phi[f], phi[b], rest);
        } else {
            let g = word[i];
            assert(word.take(i + 1) =~= word.take(i).push(g));
            lemma_walk_push(u, x, word.take(i), g);
            lemma_step_acts(u, self.num_gens as nat, phi[f], g);
            assert(word.take(i + 1) + rest =~= word);
            lemma_walk_joined(u, x, word.take(i + 1), rest);
            lemma_walk_injective(u, self.num_gens as nat, step(u, phi[f], g), phi[b], rest);
        }
    }

    /// Where a word leads by the entries of the table, it leads in `u`
    /// from row to row.
    pub proof fn lemma_follow_mapped(
        &self,
        u: Seq<Seq<usize>>,
        phi: Seq<int>,
        c: int,
        w: Seq<usize>,
    )
        requires
            self.well_formed(),
            self.mapped(u, phi),
            0 <= c < self.table@.len(),
            follow(self.rows(), c, w) is Some,
        ensures
            0 <= follow(self.rows(), c, w)->Some_0 < self.table@.len(),
            walk(u, phi[c], w) == phi[follow(self.rows(), c, w)->Some_0],
        decreases w.len(),
    {
        reveal(CosetTable::mapped);
        if w.len() > 0 {
            self.lemma_follow_mapped(u, phi, c, w.drop_last());
            let m = follow(self.rows(), c, w.drop_last())->Some_0;
            let g = w.last();
            assert(entry(self.rows(), m, g) is Some);
            assert(self.rows()[m][g as int] == self.table@[m]@[g as int]);
            assert(self.carried(u, phi, m, g as int));
        }
    }

    /// Every way to send the cosets of `start` to the rows of an action
    /// goes on to a way to send the cosets of this table there that leaves
    /// `coset` where it was.
    pub open spec fn continues(&self, start: &CosetTable, coset: int) -> bool {
        forall|u: Seq<Seq<usize>>, phi: Seq<int>|
            acts(u, start.num_gens as nat) && #[trigger] start.mapped(u, phi) ==> self.maps_at(
                u,
                coset,
                phi[coset],
            )
    }

    /// Where the cosets of `start` can be sent to the rows of an action in
    /// which `word` leads from the row of `coset` back to it, the cosets of
    /// this table can be sent to its rows too.
    pub open spec fn scanned_from(&self, start: &CosetTable, coset: int, word: Seq<usize>) -> bool {
        forall|u: Seq<Seq<usize>>, phi: Seq<int>|
            acts(u, start.num_gens as nat) && #[trigger] start.mapped(u, phi) && walk(
                u,
                phi[coset],
                word,
            ) == phi[coset] ==> self.maps_into(u)
    }

    /// A scan begins with the table as it is.
    pub proof fn lemma_continues_first(&self, coset: int)
        ensures
            self.continues(self, coset),
    {
    }

    /// A scan that has changed nothing more has scanned.
    pub proof fn lemma_scanned_same(&self, start: &CosetTable, coset: int, word: Seq<usize>)
        requires
            self.continues(start, coset),
        ensures
            self.scanned_from(start, coset, word),
    {
        assert forall|u: Seq<Seq<usize>>, phi: Seq<int>|
            acts(u, start.num_gens as nat) && #[trigger] start.mapped(u, phi) && walk(
                u,
                phi[coset],
                word,
            ) == phi[coset] implies self.maps_into(u) by {
            assert(self.maps_at(u, coset, phi[coset]));
        }
    }

    /// A definition keeps a scan going.
    pub proof fn lemma_continues_defined(
        &self,
        before: &CosetTable,
        start: &CosetTable,
        coset: int,
        c: int,
        g: int,
    )
        requires
            before.continues(start, coset),
            before.well_formed(),
            before.num_gens == start.num_gens,
            0 <= coset < before.table@.len(),
            0 <= c < before.table@.len(),
            0 <= g < before.num_gens,
            self.num_gens == before.num_gens,
            self.table@.len() == before.table@.len() + 1,
            self.live_map@ == before.live_map@.push(before.table@.len() as usize),
            self.table@[c]@ == before.table@[c]@.update(g, Some(before.table@.len() as usize)),
            self.table@[before.table@.len() as int]@ == Seq::new(
                before.num_gens as nat,
                |k: int| if k == g { Some(c as usize) } else { None::<usize> },
            ),
            forall|i: int|
                0 <= i < before.table@.len() && i != c ==> self.table@[i] == before.table@[i],
        ensures
            self.continues(start, coset),
    {
        assert forall|u: Seq<Seq<usize>>, phi: Seq<int>|
            acts(u, start.num_gens as nat) && #[trigger] start.mapped(u, phi) implies self.maps_at(
            u,
            coset,
            phi[coset],
        ) by {
            assert(before.maps_at(u, coset, phi[coset]));
            let held = choose|held: Seq<int>| #[trigger]
                before.mapped(u, held) && held[coset] == phi[coset];
            self.lemma_mapped_defined(before, u, held, c, g);
            let longer = held.push(step(u, held[c], g as usize));
            assert(held.len() == before.table@.len()) by {
                reveal(CosetTable::mapped);
            }
            assert(self.mapped(u, longer) && longer[coset] == phi[coset]);
        }
    }

    /// A deduction ends a scan.
    pub proof fn lemma_scanned_deduced(
        &self,
        before: &CosetTable,
        start: &CosetTable,
        coset: int,
        f: int,
        b: int,
        word: Seq<usize>,
        i: int,
    )
        requires
            before.continues(start, coset),
            before.well_formed(),
            before.num_gens == start.num_gens,
            word_below(word, before.num_gens as nat),
            0 <= i < word.len(),
            0 <= coset < before.table@.len(),
            0 <= b < before.table@.len(),
            follow(before.rows(), coset, word.take(i)) == Some(f),
            follow(before.rows(), b, word.subrange(i + 1, word.len() as int)) == Some(coset),
            self.num_gens == before.num_gens,
            self.table@.len() == before.table@.len(),
            self.live_map@ == before.live_map@,
            forall|c: int, h: int|
                0 <= c < self.table@.len() && 0 <= h < self.num_gens ==> ((
                #[trigger] self.table@[c]@[h]) == before.table@[c]@[h]) || (h == word[i] && c == f
                    && self.table@[c]@[h] is Some && self.table@[c]@[h]->Some_0 == b) || (h
                    == word[i] && c == b && self.table@[c]@[h] is Some && self.table@[c]@[h]->Some_0
                    == f),
        ensures
            self.scanned_from(start, coset, word),
    {
        assert forall|u: Seq<Seq<usize>>, phi: Seq<int>|
            acts(u, start.num_gens as nat) && #[trigger] start.mapped(u, phi) && walk(
                u,
                phi[coset],
                word,
            ) == phi[coset] implies self.maps_into(u) by {
            assert(before.maps_at(u, coset, phi[coset]));
            let held = choose|held: Seq<int>| #[trigger]
                before.mapped(u, held) && held[coset] == phi[coset];
            before.lemma_scan_closes(u, held, coset, f, b, word, i, i + 1);
            self.lemma_mapped_linked(before, u, held, f, b, word[i] as int);
        }
    }

    /// A coincidence ends a scan.
    pub proof fn lemma_scanned_merged(
        &self,
        before: &CosetTable,
        start: &CosetTable,
        coset: int,
        f: int,
        b: int,
        word: Seq<usize>,
        i: int,
    )
        requires
            before.continues(start, coset),
            before.well_formed(),
            before.num_gens == start.num_gens,
            word_below(word, before.num_gens as nat),
            0 <= i <= word.len(),
            0 <= coset < before.table@.len(),
            0 <= b < before.table@.len(),
            follow(before.rows(), coset, word.take(i)) == Some(f),
            follow(before.rows(), b, word.subrange(i, word.len() as int)) == Some(coset),
            forall|u: Seq<Seq<usize>>, phi: Seq<int>|
                acts(u, before.num_gens as nat) && #[trigger] before.mapped(u, phi) && phi[f]
                    == phi[b] ==> self.mapped(u, phi),
        ensures
            self.scanned_from(start, coset, word),
    {
        assert forall|u: Seq<Seq<usize>>, phi: Seq<int>|
            acts(u, start.num_gens as nat) && #[trigger] start.mapped(u, phi) && walk(
                u,
                phi[coset],
                word,
            ) == phi[coset] implies self.maps_into(u) by {
            assert(before.maps_at(u, coset, phi[coset]));
            let held = choose|held: Seq<int>| #[trigger]
                before.mapped(u, held) && held[coset] == phi[coset];
            before.lemma_scan_closes(u, held, coset, f, b, word, i, i);
            assert(self.mapped(u, held));
        }
    }

    /// The cosets can be sent to the rows of every action that respects
    /// the presentation.
    pub open spec fn faithful(&self, relations: Seq<Seq<usize>>, sub_gens: Seq<usize>) -> bool {
        forall|u: Seq<Seq<usize>>| #[trigger]
            respects(u, self.num_gens as nat, relations, sub_gens) ==> self.maps_into(u)
    }

    /// The table with the single coset 0 and no entries is faithful.
    pub proof fn lemma_faithful_first(&self, relations: Seq<Seq<usize>>, sub_gens: Seq<usize>)
        requires
            self.well_formed(),
            self.table@.len() == 1,
            forall|g: int| 0 <= g < self.num_gens ==> self.table@[0]@[g] == None::<usize>,
        ensures
            self.faithful(relations, sub_gens),
    {
        assert forall|u: Seq<Seq<usize>>| #[trigger]
            respects(u, self.num_gens as nat, relations, sub_gens) implies self.maps_into(u) by {
            self.lemma_mapped_first(u);
        }
    }

    /// The scan of a relator keeps the table faithful.
    pub proof fn lemma_faithful_relator(
        &self,
        before: &CosetTable,
        coset: int,
        relations: Seq<Seq<usize>>,
        sub_gens: Seq<usize>,
        r: int,
    )
        requires
            before.faithful(relations, sub_gens),
            before.well_formed(),
            self.num_gens == before.num_gens,
            0 <= coset < before.table@.len(),
            0 <= r < relations.len(),
            self.scanned_from(before, coset, relations[r]),
        ensures
            self.faithful(relations, sub_gens),
    {
        assert forall|u: Seq<Seq<usize>>| #[trigger]
            respects(u, self.num_gens as nat, relations, sub_gens) implies self.maps_into(u) by {
            assert(before.maps_into(u));
            let phi = choose|phi: Seq<int>| #[trigger] before.mapped(u, phi);
            assert(0 <= phi[coset] < u.len()) by {
                reveal(CosetTable::mapped);
            }
            assert(satisfies(u, relations[r]));
        }
    }

    /// The scan of a generator of the subgroup from the coset 0 keeps the
    /// table faithful.
    pub proof fn lemma_faithful_fixed(
        &self,
        before: &CosetTable,
        relations: Seq<Seq<usize>>,
        sub_gens: Seq<usize>,
        k: int,
    )
        requires
            before.faithful(relations, sub_gens),
            before.well_formed(),
            self.num_gens == before.num_gens,
            0 <= k < sub_gens.len(),
            self.scanned_from(before, 0, seq![sub_gens[k]]),
        ensures
            self.faithful(relations, sub_gens),
    {
        assert forall|u: Seq<Seq<usize>>| #[trigger]
            respects(u, self.num_gens as nat, relations, sub_gens) implies self.maps_into(u) by {
            assert(before.maps_into(u));
            let phi = choose|phi: Seq<int>| #[trigger] before.mapped(u, phi);
            assert(phi[0] == 0) by {
                reveal(CosetTable::mapped);
            }
            let word = seq![sub_gens[k]];
            assert(word.drop_last() =~= Seq::<usize>::empty());
            assert(word.last() == sub_gens[k]);
            assert(walk(u, 0, word.drop_last()) == 0);
            assert(step(u, 0, sub_gens[k]) == 0);
            assert(walk(u, 0, word) == 0);
        }
    }

    /// A definition keeps the table faithful.
    pub proof fn lemma_faithful_defined(
        &self,
        before: &CosetTable,
        c: int,
        g: int,
        relations: Seq<Seq<usize>>,
        sub_gens: Seq<usize>,
    )
        requires
            before.faithful(relations, sub_gens),
            before.well_formed(),
            0 <= c < before.table@.len(),
            0 <= g < before.num_gens,
            self.num_gens == before.num_gens,
            self.table@.len() == before.table@.len() + 1,
            self.live_map@ == before.live_map@.push(before.table@.len() as usize),
            self.table@[c]@ == before.table@[c]@.update(g, Some(before.table@.len() as usize)),
            self.table@[before.table@.len() as int]@ == Seq::new(
                before.num_gens as nat,
                |k: int| if k == g { Some(c as usize) } else { None::<usize> },
            ),
            forall|i: int|
                0 <= i < before.table@.len() && i != c ==> self.table@[i] == before.table@[i],
        ensures
            self.faithful(relations, sub_gens),
    {
        assert forall|u: Seq<Seq<usize>>| #[trigger]
            respects(u, self.num_gens as nat, relations, sub_gens) implies self.maps_into(u) by {
            assert(before.maps_into(u));
            let phi = choose|phi: Seq<int>| #[trigger] before.mapped(u, phi);
            self.lemma_mapped_defined(before, u, phi, c, g);
        }
    }

    /// In a clean table in which every coset that is its own
    /// representative has an entry under every generator, every word
    /// leads from such a coset to such a coset.
    pub proof fn lemma_follow_complete(&self, a: int, w: Seq<usize>)
        requires
            self.clean(),
            forall|c: int|
                0 <= c < self.table@.len() && self.live(c) ==> #[trigger] self.complete_at(c),
            0 <= a < self.table@.len(),
            self.live(a),
            word_below(w, self.num_gens as nat),
        ensures
            follow(self.rows(), a, w) is Some,
            0 <= follow(self.rows(), a, w)->Some_0 < self.table@.len(),
            self.live(follow(self.rows(), a, w)->Some_0),
        decreases w.len(),
    {
        if w.len() > 0 {
            assert(word_below(w.drop_last(), self.num_gens as nat)) by {
                assert forall|k: int| 0 <= k < w.drop_last().len() implies (
                #[trigger] w.drop_last()[k]) < self.num_gens by {
                    assert(w.drop_last()[k] == w[k]);
                }
            }
            self.lemma_follow_complete(a, w.drop_last());
            let m = follow(self.rows(), a, w.drop_last())->Some_0;
            let g = w.last();
            assert(g == w[w.len() - 1]);
            assert(self.complete_at(m));
            assert(self.table@[m]@[g as int] is Some);
            assert(self.rows()[m][g as int] == self.table@[m]@[g as int]);
            self.lemma_entries_live(m, g as int);
        }
    }

    /// The compressed table of a complete faithful table tells apart
    /// whatever any action that respects the presentation tells apart.
    pub proof fn lemma_merges_least(
        &self,
        forward: Seq<usize>,
        backward: Seq<usize>,
        t: Seq<Seq<usize>>,
        relations: Seq<Seq<usize>>,
        sub_gens: Seq<usize>,
    )
        requires
            self.clean(),
            self.numbered(forward, backward),
            self.compressed_to(forward, backward, t),
            forall|c: int|
                0 <= c < self.table@.len() && self.live(c) ==> #[trigger] self.complete_at(c),
            self.faithful(relations, sub_gens),
        ensures
            merges_least(t, self.num_gens as nat, relations, sub_gens),
    {
        let n = self.num_gens as nat;
        assert(backward[0] == 0 && self.live(backward[0] as int));
        assert(forward[0] == 0) by {
            assert(forward[backward[0] as int] == 0);
        }
        assert forall|u: Seq<Seq<usize>>| #[trigger]
            respects(u, n, relations, sub_gens) implies refines(t, u, n) by {
            assert(self.maps_into(u));
            let phi = choose|phi: Seq<int>| #[trigger] self.mapped(u, phi);
            assert(phi[0] == 0) by {
                reveal(CosetTable::mapped);
            }
            assert forall|v: Seq<usize>, w: Seq<usize>|
                word_below(v, n) && word_below(w, n) && #[trigger] walk(t, 0, v)
                    == #[trigger] walk(t, 0, w) implies walk(u, 0, v) == walk(u, 0, w) by {
                self.lemma_follow_complete(0, v);
                self.lemma_follow_complete(0, w);
                self.lemma_walk_compressed(forward, backward, t, 0, v);
                self.lemma_walk_compressed(forward, backward, t, 0, w);
                let a = follow(self.rows(), 0, v)->Some_0;
                let b = follow(self.rows(), 0, w)->Some_0;
                assert(backward[forward[a] as int] == a);
                assert(backward[forward[b] as int] == b);
                self.lemma_follow_mapped(u, phi, 0, v);
                self.lemma_follow_mapped(u, phi, 0, w);
            }
        }
    }
}

} // verus!
