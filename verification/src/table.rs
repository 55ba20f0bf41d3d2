//! Coset tables: what it means for a table to be a coset table of a
//! presentation, walking words through a table, and testing a table against
//! a presentation.

use vstd::prelude::*;
use crate::bfs::{connected, is_connected};

verus! {

/// The rows of a finished table as a sequence of sequences.
pub open spec fn rows_of(table: &Vec<Vec<usize>>) -> Seq<Seq<usize>> {
    Seq::new(table@.len(), |i: int| table@[i]@)
}

/// A list of words as a sequence of sequences.
pub open spec fn words_of(words: &[&[usize]]) -> Seq<Seq<usize>> {
    Seq::new(words@.len(), |i: int| words@[i]@)
}

/// Every letter of every word is one of the first `num_gens` generators.
pub open spec fn letters_below(words: Seq<Seq<usize>>, num_gens: nat) -> bool {
    forall|r: int, k: int|
        0 <= r < words.len() && 0 <= k < words[r].len() ==> (#[trigger] words[r][k]) < num_gens
}

/// Every word has at least one letter.
pub open spec fn no_empty_word(words: Seq<Seq<usize>>) -> bool {
    forall|r: int| 0 <= r < words.len() ==> (#[trigger] words[r]).len() >= 1
}

/// Every letter of the relators and of the subgroup is one of the first
/// `num_gens` generators.
pub open spec fn presentation_fits(
    relations: Seq<Seq<usize>>,
    sub_gens: Seq<usize>,
    num_gens: nat,
) -> bool {
    &&& letters_below(relations, num_gens)
    &&& forall|k: int| 0 <= k < sub_gens.len() ==> sub_gens[k] < num_gens
}

/// Every row has `width` entries.
pub open spec fn rectangular(t: Seq<Seq<usize>>, width: nat) -> bool {
    forall|c: int| 0 <= c < t.len() ==> (#[trigger] t[c]).len() == width
}

/// Every entry names a row.
pub open spec fn in_range(t: Seq<Seq<usize>>) -> bool {
    forall|c: int, g: int|
        0 <= c < t.len() && 0 <= g < t[c].len() ==> (#[trigger] t[c][g]) < t.len()
}

/// The coset reached from `c` by the generator `g`, or -1 where the table
/// has no such entry.
pub open spec fn step(t: Seq<Seq<usize>>, c: int, g: usize) -> int {
    if 0 <= c < t.len() && g < t[c].len() {
        t[c][g as int] as int
    } else {
        -1
    }
}

/// The coset reached from `c` by the letters of `w` in turn, or -1 where
/// the walk leaves the table.
pub open spec fn walk(t: Seq<Seq<usize>>, c: int, w: Seq<usize>) -> int
    decreases w.len(),
{
    if w.len() == 0 {
        c
    } else {
        step(t, walk(t, c, w.drop_last()), w.last())
    }
}

/// Applying a generator twice leads back to where one started.
pub open spec fn involutive(t: Seq<Seq<usize>>) -> bool {
    forall|c: int, g: int|
        0 <= c < t.len() && 0 <= g < t[c].len() ==> step(t, #[trigger] t[c][g] as int, g as usize)
            == c
}

/// The word `w` leads from every coset back to that coset.
pub open spec fn satisfies(t: Seq<Seq<usize>>, w: Seq<usize>) -> bool {
    forall|c: int| 0 <= c < t.len() ==> #[trigger] walk(t, c, w) == c
}

/// Each of the generators `gens` fixes the coset 0.
pub open spec fn fixes_first(t: Seq<Seq<usize>>, gens: Seq<usize>) -> bool {
    forall|k: int| 0 <= k < gens.len() ==> step(t, 0, #[trigger] gens[k]) == 0
}

/// `t` is a coset table for the group presented by `num_gens` involutions
/// and the relators `relations`, over a subgroup that contains `sub_gens`:
/// it is complete, every generator acts on the cosets as an involution,
/// every relator fixes every coset, the subgroup fixes the coset 0, and
/// every coset is reached from the coset 0.
pub open spec fn is_coset_table(
    t: Seq<Seq<usize>>,
    num_gens: nat,
    relations: Seq<Seq<usize>>,
    sub_gens: Seq<usize>,
) -> bool {
    &&& t.len() >= 1
    &&& rectangular(t, num_gens)
    &&& in_range(t)
    &&& involutive(t)
    &&& forall|r: int| 0 <= r < relations.len() ==> satisfies(t, #[trigger] relations[r])
    &&& fixes_first(t, sub_gens)
    &&& connected(t)
}

/// Every letter of `w` is one of the first `num_gens` generators.
pub open spec fn word_below(w: Seq<usize>, num_gens: nat) -> bool {
    forall|k: int| 0 <= k < w.len() ==> (#[trigger] w[k]) < num_gens
}

/// The `num_gens` generators act on the rows of `u` as involutions.
pub open spec fn acts(u: Seq<Seq<usize>>, num_gens: nat) -> bool {
    &&& u.len() >= 1
    &&& rectangular(u, num_gens)
    &&& in_range(u)
    &&& involutive(u)
}

/// The generators act on the rows of `u` as the presentation asks: as
/// involutions, every relator fixes every row, and the generators of the
/// subgroup fix the row 0. A coset table is such an action in which every
/// row is reached from the row 0.
pub open spec fn respects(
    u: Seq<Seq<usize>>,
    num_gens: nat,
    relations: Seq<Seq<usize>>,
    sub_gens: Seq<usize>,
) -> bool {
    &&& acts(u, num_gens)
    &&& forall|r: int| 0 <= r < relations.len() ==> satisfies(u, #[trigger] relations[r])
    &&& fixes_first(u, sub_gens)
}

/// Two words that lead from the row 0 of `t` to one row lead from the row
/// 0 of `u` to one row: `t` tells apart whatever `u` tells apart.
pub open spec fn refines(t: Seq<Seq<usize>>, u: Seq<Seq<usize>>, num_gens: nat) -> bool {
    forall|v: Seq<usize>, w: Seq<usize>|
        word_below(v, num_gens) && word_below(w, num_gens) && #[trigger] walk(t, 0, v)
            == #[trigger] walk(t, 0, w) ==> walk(u, 0, v) == walk(u, 0, w)
}

/// `t` has merged no two cosets that the presentation does not force to
/// be one: it tells apart whatever any action that respects the
/// presentation tells apart.
pub open spec fn merges_least(
    t: Seq<Seq<usize>>,
    num_gens: nat,
    relations: Seq<Seq<usize>>,
    sub_gens: Seq<usize>,
) -> bool {
    forall|u: Seq<Seq<usize>>| #[trigger]
        respects(u, num_gens, relations, sub_gens) ==> refines(t, u, num_gens)
}

/// A generator leads from a row to a row, and back.
pub proof fn lemma_step_acts(u: Seq<Seq<usize>>, num_gens: nat, x: int, g: usize)
    requires
        acts(u, num_gens),
        0 <= x < u.len(),
        g < num_gens,
    ensures
        0 <= step(u, x, g) < u.len(),
        step(u, step(u, x, g), g) == x,
{
    assert(u[x].len() == num_gens);
    assert(u[x][g as int] < u.len());
}

/// A word leads from a row to a row.
pub proof fn lemma_walk_acts(u: Seq<Seq<usize>>, num_gens: nat, x: int, w: Seq<usize>)
    requires
        acts(u, num_gens),
        0 <= x < u.len(),
        word_below(w, num_gens),
    ensures
        0 <= walk(u, x, w) < u.len(),
    decreases w.len(),
{
    if w.len() > 0 {
        assert(word_below(w.drop_last(), num_gens)) by {
            assert forall|k: int| 0 <= k < w.drop_last().len() implies (#[trigger] w.drop_last()[k])
                < num_gens by {
                assert(w.drop_last()[k] == w[k]);
            }
        }
        lemma_walk_acts(u, num_gens, x, w.drop_last());
        lemma_step_acts(u, num_gens, walk(u, x, w.drop_last()), w.last());
    }
}

/// Walking two words in turn is walking them joined.
pub proof fn lemma_walk_joined(u: Seq<Seq<usize>>, x: int, v: Seq<usize>, w: Seq<usize>)
    ensures
        walk(u, x, v + w) == walk(u, walk(u, x, v), w),
    decreases w.len(),
{
    if w.len() == 0 {
        assert(v + w =~= v);
    } else {
        lemma_walk_joined(u, x, v, w.drop_last());
        assert((v + w).drop_last() =~= v + w.drop_last());
        assert((v + w).last() == w.last());
    }
}

/// A word that leads from two rows to one row started from one row.
pub proof fn lemma_walk_injective(
    u: Seq<Seq<usize>>,
    num_gens: nat,
    x: int,
    y: int,
    w: Seq<usize>,
)
    requires
        acts(u, num_gens),
        0 <= x < u.len(),
        0 <= y < u.len(),
        word_below(w, num_gens),
        walk(u, x, w) == walk(u, y, w),
    ensures
        x == y,
    decreases w.len(),
{
    if w.len() > 0 {
        assert(word_below(w.drop_last(), num_gens)) by {
            assert forall|k: int| 0 <= k < w.drop_last().len() implies (#[trigger] w.drop_last()[k])
                < num_gens by {
                assert(w.drop_last()[k] == w[k]);
            }
        }
        let a = walk(u, x, w.drop_last());
        let b = walk(u, y, w.drop_last());
        lemma_walk_acts(u, num_gens, x, w.drop_last());
        lemma_walk_acts(u, num_gens, y, w.drop_last());
        lemma_step_acts(u, num_gens, a, w.last());
        lemma_step_acts(u, num_gens, b, w.last());
        lemma_walk_injective(u, num_gens, x, y, w.drop_last());
    }
}

/// Walking one letter more is one step from where the walk led.
pub proof fn lemma_walk_push(t: Seq<Seq<usize>>, c: int, w: Seq<usize>, g: usize)
    ensures
        walk(t, c, w.push(g)) == step(t, walk(t, c, w), g),
{
    assert(w.push(g).drop_last() =~= w);
}

/// Follows `word` from `coset` through `table`. Returns the coset where the
/// walk ends, or `None` if the walk leaves the table.
pub fn trace_word(table: &Vec<Vec<usize>>, coset: usize, word: &[usize]) -> (end: Option<usize>)
    ensures
        end == if walk(rows_of(table), coset as int, word@) >= 0 {
            Some(walk(rows_of(table), coset as int, word@) as usize)
        } else {
            None
        },
{
    let mut cur = coset;
    let mut k: usize = 0;
    assert(word@.take(0) =~= Seq::<usize>::empty());
    while k < word.len()
        invariant
            k <= word@.len(),
            cur == walk(rows_of(table), coset as int, word@.take(k as int)),
        decreases word@.len() - k,
    {
        let g = word[k];
        proof {
            assert(word@.take(k + 1) =~= word@.take(k as int).push(g));
            lemma_walk_push(rows_of(table), coset as int, word@.take(k as int), g);
        }
        if cur < table.len() && g < table[cur].len() {
            cur = table[cur][g];
        } else {
            proof {
                lemma_walk_stuck(rows_of(table), coset as int, word@, k as int + 1);
            }
            return None;
        }
        k += 1;
    }
    assert(word@.take(k as int) =~= word@);
    Some(cur)
}

/// Once a prefix of a word has left the table, the whole word has.
pub proof fn lemma_walk_stuck(t: Seq<Seq<usize>>, c: int, w: Seq<usize>, k: int)
    requires
        0 <= k <= w.len(),
        walk(t, c, w.take(k)) < 0,
    ensures
        walk(t, c, w) < 0,
    decreases w.len() - k,
{
    if k < w.len() {
        assert(w.take(k + 1) =~= w.take(k).push(w[k]));
        lemma_walk_push(t, c, w.take(k), w[k]);
        lemma_walk_stuck(t, c, w, k + 1);
    } else {
        assert(w.take(k) =~= w);
    }
}

/// Whether every letter of every word is below `num_gens`.
pub fn words_in_alphabet(words: &[&[usize]], num_gens: usize) -> (ok: bool)
    ensures
        ok == letters_below(words_of(words), num_gens as nat),
{
    let mut r: usize = 0;
    while r < words.len()
        invariant
            r <= words@.len(),
            forall|q: int, k: int|
                0 <= q < r && 0 <= k < words_of(words)[q].len() ==> (#[trigger] words_of(
                    words,
                )[q][k]) < num_gens,
        decreases words@.len() - r,
    {
        let word: &[usize] = words[r];
        let mut k: usize = 0;
        while k < word.len()
            invariant
                r < words@.len(),
                word@ == words_of(words)[r as int],
                k <= word@.len(),
                forall|j: int| 0 <= j < k ==> (#[trigger] word@[j]) < num_gens,
            decreases word@.len() - k,
        {
            if word[k] >= num_gens {
                assert(!(words_of(words)[r as int][k as int] < num_gens));
                return false;
            }
            k += 1;
        }
        r += 1;
    }
    true
}

/// Whether every entry of `table` is below `table.len()` and every row has
/// `num_gens` entries.
pub fn has_table_shape(table: &Vec<Vec<usize>>, num_gens: usize) -> (ok: bool)
    ensures
        ok == (rectangular(rows_of(table), num_gens as nat) && in_range(rows_of(table))),
{
    let n = table.len();
    let mut c: usize = 0;
    while c < n
        invariant
            n == table@.len(),
            c <= n,
            forall|i: int| 0 <= i < c ==> (#[trigger] rows_of(table)[i]).len() == num_gens,
            forall|i: int, g: int|
                0 <= i < c && 0 <= g < rows_of(table)[i].len() ==> (#[trigger] rows_of(
                    table,
                )[i][g]) < n,
        decreases n - c,
    {
        if table[c].len() != num_gens {
            assert(rows_of(table)[c as int].len() != num_gens);
            return false;
        }
        let mut g: usize = 0;
        while g < num_gens
            invariant
                c < n,
                n == table@.len(),
                table@[c as int]@.len() == num_gens,
                g <= num_gens,
                forall|k: int| 0 <= k < g ==> (#[trigger] table@[c as int]@[k]) < n,
            decreases num_gens - g,
        {
            if table[c][g] >= n {
                assert(!(rows_of(table)[c as int][g as int] < n));
                return false;
            }
            g += 1;
        }
        c += 1;
    }
    true
}

/// Whether every generator acts on `table` as an involution.
pub fn is_involutive(table: &Vec<Vec<usize>>) -> (ok: bool)
    ensures
        ok == involutive(rows_of(table)),
{
    let n = table.len();
    let mut c: usize = 0;
    while c < n
        invariant
            n == table@.len(),
            c <= n,
            forall|i: int, g: int|
                0 <= i < c && 0 <= g < rows_of(table)[i].len() ==> step(
                    rows_of(table),
                    #[trigger] rows_of(table)[i][g] as int,
                    g as usize,
                ) == i,
        decreases n - c,
    {
        let mut g: usize = 0;
        while g < table[c].len()
            invariant
                c < n,
                n == table@.len(),
                g <= table@[c as int]@.len(),
                forall|k: int|
                    0 <= k < g ==> step(
                        rows_of(table),
                        #[trigger] rows_of(table)[c as int][k] as int,
                        k as usize,
                    ) == c,
            decreases table@[c as int]@.len() - g,
        {
            let d = table[c][g];
            let back = d < n && g < table[d].len() && table[d][g] == c;
            if !back {
                assert(step(rows_of(table), rows_of(table)[c as int][g as int] as int, g) != c);
                return false;
            }
            g += 1;
        }
        c += 1;
    }
    true
}

/// Whether `word` leads from every coset of `table` back to that coset.
pub fn satisfies_relation(table: &Vec<Vec<usize>>, word: &[usize]) -> (ok: bool)
    ensures
        ok == satisfies(rows_of(table), word@),
{
    let n = table.len();
    let mut c: usize = 0;
    while c < n
        invariant
            n == table@.len(),
            c <= n,
            forall|i: int| 0 <= i < c ==> #[trigger] walk(rows_of(table), i, word@) == i,
        decreases n - c,
    {
        let end = trace_word(table, c, word);
        if end != Some(c) {
            assert(walk(rows_of(table), c as int, word@) != c);
            return false;
        }
        c += 1;
    }
    true
}

/// Whether each of `gens` fixes the coset 0 of `table`.
pub fn fixes_first_coset(table: &Vec<Vec<usize>>, gens: &[usize]) -> (ok: bool)
    ensures
        ok == fixes_first(rows_of(table), gens@),
{
    let mut k: usize = 0;
    while k < gens.len()
        invariant
            k <= gens@.len(),
            forall|j: int| 0 <= j < k ==> step(rows_of(table), 0, #[trigger] gens@[j]) == 0,
        decreases gens@.len() - k,
    {
        let g = gens[k];
        let fixed = table.len() > 0 && g < table[0].len() && table[0][g] == 0;
        if !fixed {
            assert(step(rows_of(table), 0, gens@[k as int]) != 0);
            return false;
        }
        k += 1;
    }
    true
}

/// Whether `table` is a coset table for the presentation with `num_gens`
/// involutions and the relators `relations`, over a subgroup that contains
/// `sub_gens`.
pub fn check_coset_table(
    table: &Vec<Vec<usize>>,
    num_gens: usize,
    relations: &[&[usize]],
    sub_gens: &[usize],
) -> (ok: bool)
    ensures
        ok == is_coset_table(rows_of(table), num_gens as nat, words_of(relations), sub_gens@),
{
    if table.len() == 0 {
        return false;
    }
    if !has_table_shape(table, num_gens) {
        return false;
    }
    if !is_involutive(table) {
        return false;
    }
    let mut r: usize = 0;
    while r < relations.len()
        invariant
            r <= relations@.len(),
            forall|q: int|
                0 <= q < r ==> satisfies(rows_of(table), #[trigger] words_of(relations)[q]),
        decreases relations@.len() - r,
    {
        let word: &[usize] = relations[r];
        if !satisfies_relation(table, word) {
            assert(!satisfies(rows_of(table), words_of(relations)[r as int]));
            return false;
        }
        r += 1;
    }
    fixes_first_coset(table, sub_gens) && is_connected(table)
}

/// A word that leads to a row has only letters that are generators.
pub proof fn lemma_walk_letters(t: Seq<Seq<usize>>, num_gens: nat, x: int, w: Seq<usize>)
    requires
        rectangular(t, num_gens),
        walk(t, x, w) >= 0,
    ensures
        word_below(w, num_gens),
    decreases w.len(),
{
    if w.len() > 0 {
        let m = walk(t, x, w.drop_last());
        assert(step(t, m, w.last()) >= 0);
        assert(t[m].len() == num_gens);
        lemma_walk_letters(t, num_gens, x, w.drop_last());
        assert forall|k: int| 0 <= k < w.len() implies (#[trigger] w[k]) < num_gens by {
            if k < w.len() - 1 {
                assert(w.drop_last()[k] == w[k]);
            }
        }
    }
}

} // verus!
