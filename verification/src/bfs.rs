//! Breadth-first walks over a coset table: the tree of first discovery,
//! the words that lead to each coset, and values folded along the tree.

use vstd::prelude::*;
use vstd::pervasive::cloned;
use std::collections::{HashSet, VecDeque};
use crate::counting::{count_true, lemma_count_update, lemma_count_bound, lemma_count_none};
use crate::table::{in_range, lemma_walk_push, rows_of, step, walk};

verus! {

/// The edge `a`, given by the position of its source in the order of
/// discovery and by its generator, is looked at before the edge `(j, g)`.
pub open spec fn edge_before(a: (usize, usize), j: int, g: int) -> bool {
    a.0 < j || (a.0 == j && a.1 < g)
}

/// The edge `a` is the edge `(j, g)` or is looked at before it.
pub open spec fn edge_not_after(a: (usize, usize), j: int, g: int) -> bool {
    a.0 < j || (a.0 == j && a.1 <= g)
}

/// The edge `e` leads from an earlier position of `order` to position `k`.
pub open spec fn tree_edge(t: Seq<Seq<usize>>, order: Seq<usize>, e: (usize, usize), k: int) -> bool {
    &&& e.0 < k
    &&& e.1 < t[order[e.0 as int] as int].len()
    &&& t[order[e.0 as int] as int][e.1 as int] == order[k]
}

/// The target of the edge `(j, g)` was discovered, and by no later edge
/// than this one.
pub open spec fn first_found(
    t: Seq<Seq<usize>>,
    order: Seq<usize>,
    link: Seq<(usize, usize)>,
    slot: Seq<Option<usize>>,
    j: int,
    g: int,
) -> bool {
    match slot[t[order[j] as int][g] as int] {
        Some(k) => k == 0 || edge_not_after(link[k as int], j, g),
        None => false,
    }
}

/// The flags that tell which cosets have a position.
pub open spec fn found_flags(slot: Seq<Option<usize>>) -> Seq<bool> {
    Seq::new(slot.len(), |v: int| slot[v] is Some)
}

/// What holds of a breadth-first search that has looked at every edge
/// before `(head, gen)`.
pub open spec fn bfs_progress(
    t: Seq<Seq<usize>>,
    start: int,
    order: Seq<usize>,
    link: Seq<(usize, usize)>,
    slot: Seq<Option<usize>>,
    head: int,
    gen: int,
) -> bool {
    &&& order.len() >= 1
    &&& order[0] == start
    &&& link.len() == order.len()
    &&& slot.len() == t.len()
    &&& 0 <= head <= order.len()
    &&& forall|k: int|
        0 <= k < order.len() ==> (#[trigger] order[k]) < t.len() && slot[order[k] as int] == Some(
            k as usize,
        )
    &&& forall|v: int|
        0 <= v < t.len() ==> match #[trigger] slot[v] {
            Some(k) => k < order.len() && order[k as int] == v,
            None => true,
        }
    &&& forall|k: int|
        1 <= k < order.len() ==> tree_edge(t, order, #[trigger] link[k], k) && edge_before(
            link[k],
            head,
            gen,
        )
    &&& forall|k: int|
        1 <= k < order.len() - 1 ==> edge_before(
            #[trigger] link[k],
            link[k + 1].0 as int,
            link[k + 1].1 as int,
        )
    &&& forall|j: int, g: int|
        0 <= j < order.len() && 0 <= g < t[order[j] as int].len() && (j < head || (j == head && g
            < gen)) ==> #[trigger] first_found(t, order, link, slot, j, g)
}

/// The tree of first discovery of a breadth-first search from `start`.
///
/// `order` lists the cosets that can be reached, in the order in which the
/// search finds them. From the second on, each was found over the edge
/// `link[k]`: the position of the coset it was found from, and the
/// generator. The edges of the tree are in the order in which the search
/// looks at edges, and no edge that the search looks at earlier leads to
/// the same coset. `slot` gives each coset its position in `order`.
pub open spec fn is_bfs_tree(
    t: Seq<Seq<usize>>,
    start: int,
    order: Seq<usize>,
    link: Seq<(usize, usize)>,
    slot: Seq<Option<usize>>,
) -> bool {
    bfs_progress(t, start, order, link, slot, order.len() as int, 0)
}

/// The tree of a breadth-first search, as `is_bfs_tree` describes it.
#[derive(Debug)]
pub struct BfsTree {
    pub order: Vec<usize>,
    pub link: Vec<(usize, usize)>,
    pub slot: Vec<Option<usize>>,
}

/// Searches `table` breadth first from `start`, following the entries of
/// each row from left to right.
pub fn bfs_tree(table: &Vec<Vec<usize>>, start: usize) -> (tree: BfsTree)
    requires
        in_range(rows_of(table)),
        start < table@.len(),
    ensures
        is_bfs_tree(rows_of(table), start as int, tree.order@, tree.link@, tree.slot@),
{
    broadcast use vstd::std_specs::hash::group_hash_axioms;

    let n = table.len();
    let ghost t = rows_of(table);
    let mut slot: Vec<Option<usize>> = Vec::new();
    let mut v: usize = 0;
    while v < n
        invariant
            v <= n,
            slot@.len() == v,
            forall|u: int| 0 <= u < v ==> slot@[u] is None,
        decreases n - v,
    {
        slot.push(None);
        v += 1;
    }
    proof {
        lemma_count_none(found_flags(slot@));
        assert(found_flags(slot@.update(start as int, Some(0usize))) =~= found_flags(
            slot@,
        ).update(start as int, true));
        lemma_count_update(found_flags(slot@), start as int, true);
    }
    slot[start] = Some(0);
    let mut order: Vec<usize> = Vec::new();
    order.push(start);
    let mut link: Vec<(usize, usize)> = Vec::new();
    link.push((0, 0));
    let mut queue: VecDeque<usize> = VecDeque::new();
    queue.push_back(start);
    let mut seen: HashSet<usize> = HashSet::new();
    seen.insert(start);
    let mut head: usize = 0;
    assert(queue@ =~= order@.subrange(0, 1));
    while queue.len() > 0
        invariant
            n == table@.len(),
            t == rows_of(table),
            in_range(t),
            bfs_progress(t, start as int, order@, link@, slot@, head as int, 0),
            order@.len() == count_true(found_flags(slot@)),
            queue@ == order@.subrange(head as int, order@.len() as int),
            forall|v: usize| #[trigger] seen@.contains(v) <==> v < n && slot@[v as int] is Some,
        decreases n - head,
    {
        proof {
            lemma_count_bound(found_flags(slot@));
        }
        let top = match queue.pop_front() {
            Some(top) => top,
            None => start,
        };
        assert(top == order@[head as int]);
        assert(queue@ =~= order@.subrange(head + 1, order@.len() as int));
        let width = table[top].len();
        let mut g: usize = 0;
        while g < width
            invariant
                n == table@.len(),
                t == rows_of(table),
                in_range(t),
                head < order@.len(),
                top == order@[head as int],
                top < n,
                width == t[top as int].len(),
                g <= width,
                bfs_progress(t, start as int, order@, link@, slot@, head as int, g as int),
                order@.len() == count_true(found_flags(slot@)),
                queue@ == order@.subrange(head + 1, order@.len() as int),
                forall|v: usize| #[trigger] seen@.contains(v) <==> v < n && slot@[v as int] is Some,
            decreases width - g,
        {
            let next = table[top][g];
            assert(next == t[top as int][g as int]);
            assert(next < n);
            if !seen.contains(&next) {
                let k = order.len();
                proof {
                    lemma_count_bound(found_flags(slot@));
                    assert(found_flags(slot@.update(next as int, Some(k))) =~= found_flags(
                        slot@,
                    ).update(next as int, true));
                    lemma_count_update(found_flags(slot@), next as int, true);
                }
                let ghost order0 = order@;
                let ghost link0 = link@;
                let ghost slot0 = slot@;
                slot[next] = Some(k);
                order.push(next);
                link.push((head, g));
                queue.push_back(next);
                seen.insert(next);
                proof {
                    assert(queue@ =~= order@.subrange(head + 1, order@.len() as int));
                    assert forall|j: int, h: int|
                        0 <= j < order@.len() && 0 <= h < t[order@[j] as int].len() && (j < head
                            || (j == head && h < g + 1)) implies #[trigger] first_found(
                        t,
                        order@,
                        link@,
                        slot@,
                        j,
                        h,
                    ) by {
                        if j == head && h == g {
                        } else {
                            assert(first_found(t, order0, link0, slot0, j, h));
                        }
                    }
                    assert forall|q: int| 1 <= q < order@.len() implies tree_edge(
                        t,
                        order@,
                        #[trigger] link@[q],
                        q,
                    ) && edge_before(link@[q], head as int, g + 1) by {
                        if q < k {
                            assert(tree_edge(t, order0, link0[q], q));
                        }
                    }
                    assert forall|q: int| 1 <= q < order@.len() - 1 implies edge_before(
                        #[trigger] link@[q],
                        link@[q + 1].0 as int,
                        link@[q + 1].1 as int,
                    ) by {
                        if q + 1 < k {
                            assert(edge_before(link0[q], link0[q + 1].0 as int, link0[q + 1].1 as int));
                        } else {
                            assert(edge_before(link0[q], head as int, g as int));
                        }
                    }
                }
            } else {
                proof {
                    assert forall|j: int, h: int|
                        0 <= j < order@.len() && 0 <= h < t[order@[j] as int].len() && (j < head
                            || (j == head && h < g + 1)) implies #[trigger] first_found(
                        t,
                        order@,
                        link@,
                        slot@,
                        j,
                        h,
                    ) by {
                        if j == head && h == g {
                            let q = slot@[next as int]->Some_0;
                            if q != 0 {
                                assert(edge_before(link@[q as int], head as int, g as int));
                            }
                        }
                    }
                }
            }
            g += 1;
        }
        head += 1;
    }
    BfsTree { order, link, slot }
}


/// The word `word` leads from `start` to the coset `target`.
pub open spec fn leads_to(t: Seq<Seq<usize>>, start: int, word: Seq<usize>, target: int) -> bool {
    walk(t, start, word) == target
}

/// The words through the tree `tree` of `table`: the empty word for
/// `start`, and for every other coset of the tree the word of the coset it
/// was found from, followed by the generator it was found by. A coset
/// outside the tree gets the empty word.
pub fn paths_along(table: &Vec<Vec<usize>>, start: usize, tree: &BfsTree) -> (paths: Vec<Vec<usize>>)
    requires
        in_range(rows_of(table)),
        start < table@.len(),
        is_bfs_tree(rows_of(table), start as int, tree.order@, tree.link@, tree.slot@),
    ensures
        paths@.len() == table@.len(),
        paths@[start as int]@.len() == 0,
        paths_follow(tree.order@, tree.link@, tree.slot@, rows_of(&paths)),
        forall|v: int|
            0 <= v < table@.len() && (v == start || paths@[v]@.len() > 0) ==> walk(
                rows_of(table),
                start as int,
                #[trigger] paths@[v]@,
            ) == v,
        forall|v: int, word: Seq<usize>|
            0 <= v < table@.len() && #[trigger] leads_to(rows_of(table), start as int, word, v)
                ==> leads_to(rows_of(table), start as int, paths@[v]@, v) && paths@[v]@.len()
                <= word.len(),
{
    let n = table.len();
    let ghost t = rows_of(table);
    let mut paths: Vec<Vec<usize>> = Vec::new();
    let mut v: usize = 0;
    while v < n
        invariant
            v <= n,
            paths@.len() == v,
            forall|u: int| 0 <= u < v ==> (#[trigger] paths@[u])@.len() == 0,
        decreases n - v,
    {
        paths.push(Vec::new());
        v += 1;
    }
    let mut k: usize = 1;
    while k < tree.order.len()
        invariant
            n == table@.len(),
            t == rows_of(table),
            is_bfs_tree(t, start as int, tree.order@, tree.link@, tree.slot@),
            paths@.len() == n,
            1 <= k <= tree.order@.len(),
            paths@[start as int]@.len() == 0,
            forall|q: int|
                1 <= q < k ==> (#[trigger] paths@[tree.order@[q] as int])@ == paths@[tree.order@[tree.link@[q].0 as int] as int]@.push(
                    tree.link@[q].1,
                ),
            forall|q: int|
                0 <= q < k ==> walk(t, start as int, (#[trigger] paths@[tree.order@[q] as int])@)
                    == tree.order@[q],
            forall|u: int|
                0 <= u < n && (tree.slot@[u] is None || tree.slot@[u]->Some_0 >= k) ==> (
                #[trigger] paths@[u])@.len() == 0,
        decreases tree.order@.len() - k,
    {
        let (from, g) = tree.link[k];
        let target = tree.order[k];
        let source = tree.order[from];
        assert(tree_edge(t, tree.order@, tree.link@[k as int], k as int));
        let mut word = paths[source].clone();
        word.push(g);
        proof {
            lemma_walk_push(t, start as int, paths@[source as int]@, g);
            assert(target != source);
        }
        let ghost before = paths@;
        paths[target] = word;
        proof {
            assert forall|q: int| 1 <= q < k + 1 implies (
            #[trigger] paths@[tree.order@[q] as int])@ == paths@[tree.order@[tree.link@[q].0 as int] as int]@.push(
                tree.link@[q].1,
            ) by {
                assert(tree_edge(t, tree.order@, tree.link@[q], q));
                if q < k {
                    assert(before[tree.order@[q] as int]@ == before[tree.order@[tree.link@[q].0 as int] as int]@.push(
                        tree.link@[q].1,
                    ));
                }
            }
        }
        k += 1;
    }
    proof {
        assert(rows_of(&paths)[start as int] == paths@[start as int]@);
        assert forall|q: int| 1 <= q < tree.order@.len() implies (#[trigger] rows_of(
            &paths,
        )[tree.order@[q] as int]) == rows_of(&paths)[tree.order@[tree.link@[q].0 as int] as int].push(
            tree.link@[q].1,
        ) by {
            assert(tree_edge(t, tree.order@, tree.link@[q], q));
            assert(paths@[tree.order@[q] as int]@ == paths@[tree.order@[tree.link@[q].0 as int] as int]@.push(
                tree.link@[q].1,
            ));
        }
        assert(paths_follow(tree.order@, tree.link@, tree.slot@, rows_of(&paths)));
        assert forall|v: int, word: Seq<usize>|
            0 <= v < table@.len() && #[trigger] leads_to(
                rows_of(table),
                start as int,
                word,
                v,
            ) implies leads_to(rows_of(table), start as int, paths@[v]@, v) && paths@[v]@.len()
            <= word.len() by {
            lemma_paths_are_shortest(
                t,
                start as int,
                tree.order@,
                tree.link@,
                tree.slot@,
                rows_of(&paths),
                word,
            );
            let q = tree.slot@[v]->Some_0 as int;
            assert(tree.order@[q] == v);
            assert(rows_of(&paths)[v] == paths@[v]@);
        }
        assert forall|v: int|
            0 <= v < table@.len() && (v == start || paths@[v]@.len() > 0) implies walk(
            rows_of(table),
            start as int,
            #[trigger] paths@[v]@,
        ) == v by {
            if tree.slot@[v] is Some {
                let q = tree.slot@[v]->Some_0 as int;
                assert(tree.order@[q] == v);
            }
        }
    }
    paths
}

/// For every coset of `table` that can be reached from `start`, a word in
/// the generators that leads from `start` to it: the empty word for `start`
/// itself, and for every other coset the word of the coset it was first
/// found from, followed by the generator it was found by. No shorter word
/// leads to the coset. A coset that cannot be reached gets the empty word.
pub fn coset_table_bfs(table: &Vec<Vec<usize>>, start: usize) -> (paths: Vec<Vec<usize>>)
    requires
        in_range(rows_of(table)),
        start < table@.len(),
    ensures
        paths@.len() == table@.len(),
        paths@[start as int]@.len() == 0,
        exists|order: Seq<usize>, link: Seq<(usize, usize)>, slot: Seq<Option<usize>>|
            #![auto]
            is_bfs_tree(rows_of(table), start as int, order, link, slot) && paths_follow(
                order,
                link,
                slot,
                rows_of(&paths),
            ),
        forall|v: int|
            0 <= v < table@.len() && (v == start || paths@[v]@.len() > 0) ==> walk(
                rows_of(table),
                start as int,
                #[trigger] paths@[v]@,
            ) == v,
        forall|v: int, word: Seq<usize>|
            0 <= v < table@.len() && #[trigger] leads_to(rows_of(table), start as int, word, v)
                ==> leads_to(rows_of(table), start as int, paths@[v]@, v) && paths@[v]@.len()
                <= word.len(),
{
    let tree = bfs_tree(table, start);
    paths_along(table, start, &tree)
}

/// The words `paths` follow the tree: the word of the first coset is
/// empty, the word of every other coset of `order` is the word of the coset
/// it was found from with the generator appended, and a coset without a
/// position has the empty word.
pub open spec fn paths_follow(
    order: Seq<usize>,
    link: Seq<(usize, usize)>,
    slot: Seq<Option<usize>>,
    paths: Seq<Seq<usize>>,
) -> bool {
    &&& paths.len() == slot.len()
    &&& paths[order[0] as int].len() == 0
    &&& forall|q: int|
        1 <= q < order.len() ==> (#[trigger] paths[order[q] as int]) == paths[order[link[q].0 as int] as int].push(
            link[q].1,
        )
    &&& forall|u: int| 0 <= u < slot.len() && slot[u] is None ==> (#[trigger] paths[u]).len() == 0
}

/// The value `child` is what `f` returned for a clone of `parent` and the
/// generator `g`.
pub open spec fn derived<T: Clone, F: Fn(T, usize) -> T>(f: F, parent: T, g: usize, child: T) -> bool {
    exists|c: T| cloned(parent, c) && call_ensures(f, (c, g), child)
}

/// The value `x` arises from `initial` in `depth` steps, each of which
/// hands a clone of a value that has arisen to `f`.
pub open spec fn arises_in<T: Clone, F: Fn(T, usize) -> T>(initial: T, f: F, x: T, depth: nat) -> bool
    decreases depth,
{
    if depth == 0 {
        cloned(initial, x)
    } else {
        exists|p: T, g: usize|
            arises_in(initial, f, p, (depth - 1) as nat) && #[trigger] derived(f, p, g, x)
    }
}

/// The value `x` is a clone of `initial`, or what `f` made of a clone of
/// a value that arises.
pub open spec fn arises<T: Clone, F: Fn(T, usize) -> T>(initial: T, f: F, x: T) -> bool {
    exists|depth: nat| #[trigger] arises_in(initial, f, x, depth)
}

/// The values `values` are folded along the tree: the first coset and
/// every coset without a position hold a clone of `initial`, and every other
/// coset of `order` holds what `f` made of the value of the coset it was
/// found from and the generator it was found by.
pub open spec fn folded<T: Clone, F: Fn(T, usize) -> T>(
    order: Seq<usize>,
    link: Seq<(usize, usize)>,
    slot: Seq<Option<usize>>,
    initial: T,
    f: F,
    values: Seq<T>,
) -> bool {
    &&& values.len() == slot.len()
    &&& cloned(initial, values[order[0] as int])
    &&& forall|q: int|
        1 <= q < order.len() ==> derived(
            f,
            values[order[link[q].0 as int] as int],
            link[q].1,
            #[trigger] values[order[q] as int],
        )
    &&& forall|u: int| 0 <= u < slot.len() && slot[u] is None ==> cloned(initial, #[trigger] values[u])
}

/// Folds `f` along the breadth-first tree of `table` from `start`: `start`
/// holds `initial`, and every other coset that can be reached holds `f` of
/// the value of the coset it was first found from and the generator it was
/// found by. A coset that cannot be reached holds `initial`. `f` need
/// only take the clones of the values that arise on the way.
pub fn table_bfs_fold<T, F>(table: &Vec<Vec<usize>>, start: usize, initial: T, f: F) -> (result: Vec<
    T,
>) where T: Clone, F: Fn(T, usize) -> T
    requires
        in_range(rows_of(table)),
        start < table@.len(),
        forall|p: T, c: T, g: usize|
            #[trigger] arises(initial, f, p) && cloned(p, c) ==> #[trigger] call_requires(f, (c, g)),
    ensures
        result@.len() == table@.len(),
        exists|order: Seq<usize>, link: Seq<(usize, usize)>, slot: Seq<Option<usize>>|
            #![auto]
            is_bfs_tree(rows_of(table), start as int, order, link, slot) && folded(
                order,
                link,
                slot,
                initial,
                f,
                result@,
            ),
{
    let n = table.len();
    let tree = bfs_tree(table, start);
    let ghost t = rows_of(table);
    let mut result: Vec<T> = Vec::new();
    let mut v: usize = 0;
    while v < n
        invariant
            v <= n,
            result@.len() == v,
            forall|u: int| 0 <= u < v ==> cloned(initial, #[trigger] result@[u]),
        decreases n - v,
    {
        result.push(initial.clone());
        v += 1;
    }
    proof {
        assert forall|u: int| 0 <= u < n implies arises(initial, f, #[trigger] result@[u]) by {
            assert(arises_in(initial, f, result@[u], 0));
        }
    }
    let mut k: usize = 1;
    while k < tree.order.len()
        invariant
            n == table@.len(),
            t == rows_of(table),
            is_bfs_tree(t, start as int, tree.order@, tree.link@, tree.slot@),
            forall|p: T, c: T, g: usize|
                #[trigger] arises(initial, f, p) && cloned(p, c) ==> #[trigger] call_requires(
                    f,
                    (c, g),
                ),
            forall|u: int| 0 <= u < n ==> arises(initial, f, #[trigger] result@[u]),
            result@.len() == n,
            1 <= k <= tree.order@.len(),
            cloned(initial, result@[start as int]),
            forall|q: int|
                1 <= q < k ==> derived(
                    f,
                    result@[tree.order@[tree.link@[q].0 as int] as int],
                    tree.link@[q].1,
                    #[trigger] result@[tree.order@[q] as int],
                ),
            forall|u: int|
                0 <= u < n && (tree.slot@[u] is None || tree.slot@[u]->Some_0 >= k) ==> cloned(
                    initial,
                    #[trigger] result@[u],
                ),
        decreases tree.order@.len() - k,
    {
        let (from, g) = tree.link[k];
        let target = tree.order[k];
        let source = tree.order[from];
        assert(tree_edge(t, tree.order@, tree.link@[k as int], k as int));
        let seed = result[source].clone();
        proof {
            assert(arises(initial, f, result@[source as int]));
            assert(cloned(result@[source as int], seed));
            assert(call_requires(f, (seed, g)));
        }
        let value = f(seed, g);
        let ghost before = result@;
        proof {
            assert(target != source);
            assert(cloned(before[source as int], seed));
            assert(call_ensures(f, (seed, g), value));
            assert(derived(f, before[source as int], g, value));
            let depth = choose|depth: nat| #[trigger]
                arises_in(initial, f, before[source as int], depth);
            assert(arises_in(initial, f, value, depth + 1));
        }
        result[target] = value;
        proof {
            assert forall|u: int| 0 <= u < n implies arises(initial, f, #[trigger] result@[u]) by {
                if u != target {
                    assert(result@[u] == before[u]);
                }
            }
            assert forall|q: int| 1 <= q < k + 1 implies derived(
                f,
                result@[tree.order@[tree.link@[q].0 as int] as int],
                tree.link@[q].1,
                #[trigger] result@[tree.order@[q] as int],
            ) by {
                assert(tree_edge(t, tree.order@, tree.link@[q], q));
                if q < k {
                    assert(derived(
                        f,
                        before[tree.order@[tree.link@[q].0 as int] as int],
                        tree.link@[q].1,
                        before[tree.order@[q] as int],
                    ));
                }
            }
        }
        k += 1;
    }
    proof {
        assert(folded(tree.order@, tree.link@, tree.slot@, initial, f, result@));
    }
    result
}


/// The number of edges of the tree between the first coset and the coset
/// at position `k`.
pub open spec fn depth(link: Seq<(usize, usize)>, k: int) -> nat
    decreases k,
{
    if 0 < k < link.len() && link[k].0 < k {
        depth(link, link[k].0 as int) + 1
    } else {
        0
    }
}

/// In a breadth-first tree a coset that is found later is found from a
/// coset that is not found earlier.
pub proof fn lemma_links_rise(
    t: Seq<Seq<usize>>,
    start: int,
    order: Seq<usize>,
    link: Seq<(usize, usize)>,
    slot: Seq<Option<usize>>,
    k: int,
    l: int,
)
    requires
        is_bfs_tree(t, start, order, link, slot),
        1 <= k <= l < order.len(),
    ensures
        link[k].0 <= link[l].0,
    decreases l - k,
{
    if k < l {
        lemma_links_rise(t, start, order, link, slot, k + 1, l);
        assert(edge_before(link[k], link[k + 1].0 as int, link[k + 1].1 as int));
    }
}

/// In a breadth-first tree a coset that is found later does not lie
/// nearer to the first coset.
pub proof fn lemma_depth_rises(
    t: Seq<Seq<usize>>,
    start: int,
    order: Seq<usize>,
    link: Seq<(usize, usize)>,
    slot: Seq<Option<usize>>,
    k: int,
    l: int,
)
    requires
        is_bfs_tree(t, start, order, link, slot),
        0 <= k <= l < order.len(),
    ensures
        depth(link, k) <= depth(link, l),
    decreases l,
{
    if 0 < k && k < l {
        assert(tree_edge(t, order, link[k], k));
        assert(tree_edge(t, order, link[l], l));
        lemma_links_rise(t, start, order, link, slot, k, l);
        lemma_depth_rises(t, start, order, link, slot, link[k].0 as int, link[l].0 as int);
    }
}

/// In a breadth-first tree every word that leads from the first coset to
/// a coset is at least as long as the way to that coset through the tree.
pub proof fn lemma_walk_is_no_shorter(
    t: Seq<Seq<usize>>,
    start: int,
    order: Seq<usize>,
    link: Seq<(usize, usize)>,
    slot: Seq<Option<usize>>,
    word: Seq<usize>,
)
    requires
        is_bfs_tree(t, start, order, link, slot),
        in_range(t),
        0 <= start < t.len(),
        0 <= walk(t, start, word) < t.len(),
    ensures
        slot[walk(t, start, word)] is Some,
        depth(link, slot[walk(t, start, word)]->Some_0 as int) <= word.len(),
    decreases word.len(),
{
    if word.len() == 0 {
        assert(slot[order[0] as int] == Some(0usize));
    } else {
        let before = walk(t, start, word.drop_last());
        let g = word.last();
        assert(step(t, before, g) == walk(t, start, word));
        lemma_walk_is_no_shorter(t, start, order, link, slot, word.drop_last());
        let j = slot[before]->Some_0 as int;
        assert(order[j] == before);
        assert(first_found(t, order, link, slot, j, g as int));
        let k = slot[walk(t, start, word)]->Some_0 as int;
        if k != 0 {
            assert(tree_edge(t, order, link[k], k));
            lemma_depth_rises(t, start, order, link, slot, link[k].0 as int, j);
        }
    }
}

/// The word of a coset is as long as its way through the tree.
pub proof fn lemma_path_length(
    order: Seq<usize>,
    link: Seq<(usize, usize)>,
    slot: Seq<Option<usize>>,
    paths: Seq<Seq<usize>>,
    k: int,
)
    requires
        paths_follow(order, link, slot, paths),
        link.len() == order.len(),
        0 <= k < order.len(),
        forall|q: int| 1 <= q < order.len() ==> (#[trigger] link[q]).0 < q,
    ensures
        paths[order[k] as int].len() == depth(link, k),
    decreases k,
{
    if k > 0 {
        assert(link[k].0 < k);
        lemma_path_length(order, link, slot, paths, link[k].0 as int);
        assert(paths[order[k] as int] == paths[order[link[k].0 as int] as int].push(link[k].1));
    }
}

/// The words that follow a breadth-first tree are shortest words: a coset
/// that some word leads to from the first coset has a word that leads to it,
/// and that word is no longer.
pub proof fn lemma_paths_are_shortest(
    t: Seq<Seq<usize>>,
    start: int,
    order: Seq<usize>,
    link: Seq<(usize, usize)>,
    slot: Seq<Option<usize>>,
    paths: Seq<Seq<usize>>,
    word: Seq<usize>,
)
    requires
        is_bfs_tree(t, start, order, link, slot),
        paths_follow(order, link, slot, paths),
        in_range(t),
        0 <= start < t.len(),
        0 <= walk(t, start, word) < t.len(),
    ensures
        slot[walk(t, start, word)] is Some,
        walk(t, start, paths[walk(t, start, word)]) == walk(t, start, word),
        paths[walk(t, start, word)].len() <= word.len(),
{
    lemma_walk_is_no_shorter(t, start, order, link, slot, word);
    let v = walk(t, start, word);
    let k = slot[v]->Some_0 as int;
    assert(order[k] == v);
    assert forall|q: int| 1 <= q < order.len() implies (#[trigger] link[q]).0 < q by {
        assert(tree_edge(t, order, link[q], q));
    }
    lemma_path_length(order, link, slot, paths, k);
    lemma_paths_lead(t, start, order, link, slot, paths, k);
}

/// The word of a coset of the tree leads from the first coset to it.
pub proof fn lemma_paths_lead(
    t: Seq<Seq<usize>>,
    start: int,
    order: Seq<usize>,
    link: Seq<(usize, usize)>,
    slot: Seq<Option<usize>>,
    paths: Seq<Seq<usize>>,
    k: int,
)
    requires
        is_bfs_tree(t, start, order, link, slot),
        paths_follow(order, link, slot, paths),
        0 <= k < order.len(),
    ensures
        walk(t, start, paths[order[k] as int]) == order[k],
    decreases k,
{
    if k > 0 {
        assert(tree_edge(t, order, link[k], k));
        lemma_paths_lead(t, start, order, link, slot, paths, link[k].0 as int);
        lemma_walk_push(t, start, paths[order[link[k].0 as int] as int], link[k].1);
    } else {
        assert(paths[order[0] as int] =~= Seq::<usize>::empty());
    }
}


/// The word that leads through the tree from the first coset to the coset
/// at position `k`.
pub open spec fn tree_path(link: Seq<(usize, usize)>, k: int) -> Seq<usize>
    decreases k,
{
    if 0 < k < link.len() && link[k].0 < k {
        tree_path(link, link[k].0 as int).push(link[k].1)
    } else {
        Seq::empty()
    }
}

/// The word through the tree to a coset leads to that coset.
pub proof fn lemma_tree_path_leads(
    t: Seq<Seq<usize>>,
    start: int,
    order: Seq<usize>,
    link: Seq<(usize, usize)>,
    slot: Seq<Option<usize>>,
    k: int,
)
    requires
        is_bfs_tree(t, start, order, link, slot),
        0 <= k < order.len(),
    ensures
        walk(t, start, tree_path(link, k)) == order[k],
    decreases k,
{
    if k > 0 {
        assert(tree_edge(t, order, link[k], k));
        lemma_tree_path_leads(t, start, order, link, slot, link[k].0 as int);
        lemma_walk_push(t, start, tree_path(link, link[k].0 as int), link[k].1);
    }
}

/// Some word leads from the coset 0 to the coset `c`.
pub open spec fn reachable(t: Seq<Seq<usize>>, c: int) -> bool {
    exists|word: Seq<usize>| #[trigger] leads_to(t, 0, word, c)
}

/// Every coset of the table is led to from the coset 0 by some word.
pub open spec fn connected(t: Seq<Seq<usize>>) -> bool {
    forall|c: int| 0 <= c < t.len() ==> #[trigger] reachable(t, c)
}

/// Whether every coset of `table` is led to from the coset 0 by some word.
pub fn is_connected(table: &Vec<Vec<usize>>) -> (ok: bool)
    requires
        in_range(rows_of(table)),
        table@.len() >= 1,
    ensures
        ok == connected(rows_of(table)),
{
    let tree = bfs_tree(table, 0);
    let ghost t = rows_of(table);
    let mut c: usize = 0;
    while c < tree.slot.len()
        invariant
            t == rows_of(table),
            in_range(t),
            t.len() >= 1,
            is_bfs_tree(t, 0, tree.order@, tree.link@, tree.slot@),
            c <= tree.slot@.len(),
            forall|v: int| 0 <= v < c ==> tree.slot@[v] is Some,
        decreases tree.slot@.len() - c,
    {
        if tree.slot[c].is_none() {
            proof {
                if connected(t) {
                    assert(reachable(t, c as int));
                    let word = choose|word: Seq<usize>| #[trigger] leads_to(t, 0, word, c as int);
                    lemma_walk_is_no_shorter(t, 0, tree.order@, tree.link@, tree.slot@, word);
                }
            }
            return false;
        }
        c += 1;
    }
    proof {
        assert forall|v: int| 0 <= v < t.len() implies #[trigger] reachable(t, v) by {
            let k = tree.slot@[v]->Some_0 as int;
            assert(tree.order@[k] == v);
            lemma_tree_path_leads(t, 0, tree.order@, tree.link@, tree.slot@, k);
            assert(leads_to(t, 0, tree_path(tree.link@, k), v));
        }
    }
    true
}

} // verus!
