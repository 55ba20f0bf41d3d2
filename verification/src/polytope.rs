//! What the mesh of a regular polytope is: where its vertices, edges,
//! faces and cells lie among the cosets of the group that the four mirrors
//! generate.

use vstd::prelude::*;
use crate::coxeter::DEFAULT_COSET_LIMIT;
use crate::work::{is_table_of, work_enumerate, Work};
use crate::bfs::{
    connected, is_bfs_tree, leads_to, lemma_tree_path_leads, lemma_walk_is_no_shorter,
    paths_follow, reachable, tree_edge, tree_path,
};
use crate::mesh::{
    index_carried, links_fit, list_below, lists_carried, map_list, schlafli_words, turned, Cell,
    Edge, Face, Mesh, VertexData, NO_CELL,
};
use crate::table::{
    acts, in_range, is_coset_table, lemma_walk_acts, lemma_walk_injective, lemma_walk_letters,
    lemma_walk_push, merges_least, rectangular, walk, word_below,
};

verus! {

/// The indices of `s`, each moved along the word `w` through `t`.
pub open spec fn list_moved(t: Seq<Seq<usize>>, s: Seq<usize>, w: Seq<usize>) -> Seq<usize> {
    Seq::new(s.len(), |i: int| walk(t, s[i] as int, w) as usize)
}

/// `list` holds the cosets that the rotation "`g1`, then `g2`" carries the
/// coset 0 through before it first comes back to it.
pub open spec fn is_orbit(t: Seq<Seq<usize>>, g1: usize, g2: usize, list: Seq<usize>) -> bool {
    &&& 1 <= list.len() <= t.len()
    &&& forall|k: int| 0 <= k < list.len() ==> #[trigger] list[k] == turned(t, g1, g2, k as nat)
    &&& forall|k: int| 1 <= k < list.len() ==> #[trigger] list[k] != 0
    &&& turned(t, g1, g2, list.len()) == 0
}

/// The first `width` columns of `t`.
pub open spec fn columns(t: Seq<Seq<usize>>, width: int) -> Seq<Seq<usize>> {
    Seq::new(t.len(), |c: int| t[c].take(width))
}

/// `order` lists the cosets that are reached from the coset 0 in the
/// order in which a breadth-first search finds them.
pub open spec fn is_search_order(t: Seq<Seq<usize>>, order: Seq<usize>) -> bool {
    exists|link: Seq<(usize, usize)>, slot: Seq<Option<usize>>| #[trigger]
        is_bfs_tree(t, 0, order, link, slot)
}

/// `t` is the coset table of the subgroup that the mirrors `gens`
/// generate in the mirror group of the polytope `symbol`.
pub open spec fn is_element_table(t: Seq<Seq<usize>>, symbol: [usize; 3], gens: Seq<usize>) -> bool {
    &&& enumerated(symbol, gens) matches Some(work) && is_table_of(work, 4, t)
    &&& is_coset_table(t, 4, schlafli_words(symbol), gens)
    &&& merges_least(t, 4, schlafli_words(symbol), gens)
}

/// What the enumeration of the cosets of the subgroup that the mirrors
/// `gens` generate ends with, if it ends within the limit.
pub open spec fn enumerated(symbol: [usize; 3], gens: Seq<usize>) -> Option<Work> {
    work_enumerate(4, schlafli_words(symbol), gens, DEFAULT_COSET_LIMIT as int)
}

/// The enumerations of the vertices, edges, faces and cells all end
/// within the limit.
pub open spec fn all_enumerated(symbol: [usize; 3]) -> bool {
    &&& enumerated(symbol, seq![1usize, 2usize, 3usize]) is Some
    &&& enumerated(symbol, seq![0usize, 2usize, 3usize]) is Some
    &&& enumerated(symbol, seq![0usize, 1usize, 3usize]) is Some
    &&& enumerated(symbol, seq![0usize, 1usize, 2usize]) is Some
}

/// An entry of the symbol is zero.
pub open spec fn has_zero(symbol: [usize; 3]) -> bool {
    symbol[0] == 0 || symbol[1] == 0 || symbol[2] == 0
}

/// The rotation "`g1`, then `g2`" does not carry the coset 0 back to it
/// within as many steps as the table has rows.
pub open spec fn never_returns(t: Seq<Seq<usize>>, g1: usize, g2: usize) -> bool {
    forall|k: int| 1 <= k <= t.len() ==> #[trigger] turned(t, g1, g2, k as nat) != 0
}

/// The tables give no mesh: there is no second vertex, or no face lies
/// around the first edge, or no edge around the first face.
pub open spec fn unfit(vt: Seq<Seq<usize>>, et: Seq<Seq<usize>>, ft: Seq<Seq<usize>>) -> bool {
    vt.len() < 2 || never_returns(ft, 2, 3) || never_returns(et, 0, 1)
}

/// The four tables are the coset tables of the vertices, edges, faces and
/// cells of the polytope `symbol`.
pub open spec fn element_tables(
    symbol: [usize; 3],
    vt: Seq<Seq<usize>>,
    et: Seq<Seq<usize>>,
    ft: Seq<Seq<usize>>,
    ct: Seq<Seq<usize>>,
) -> bool {
    &&& is_element_table(vt, symbol, seq![1usize, 2usize, 3usize])
    &&& is_element_table(et, symbol, seq![0usize, 2usize, 3usize])
    &&& is_element_table(ft, symbol, seq![0usize, 1usize, 3usize])
    &&& is_element_table(ct, symbol, seq![0usize, 1usize, 2usize])
}

/// The mesh that is laid out for the symbol `symbol` is not well formed
/// or not closed.
pub open spec fn no_closed_polytope(symbol: [usize; 3]) -> bool {
    exists|mesh: Mesh| #[trigger] mesh.is_open_polytope(symbol)
}

/// The coset tables of the polytope `symbol` give no mesh.
pub open spec fn no_polytope(symbol: [usize; 3]) -> bool {
    exists|vt: Seq<Seq<usize>>, et: Seq<Seq<usize>>, ft: Seq<Seq<usize>>, ct: Seq<Seq<usize>>|
        #[trigger] element_tables(symbol, vt, et, ft, ct) && unfit(vt, et, ft)
}

/// An index that is carried along a tree is moved along the word through
/// the tree.
pub proof fn lemma_index_moved(
    order: Seq<usize>,
    link: Seq<(usize, usize)>,
    map_table: Seq<Seq<usize>>,
    initial: usize,
    images: Seq<usize>,
    k: int,
)
    requires
        link.len() == order.len(),
        forall|q: int| 1 <= q < order.len() ==> (#[trigger] link[q]).0 < q,
        index_carried(order, link, map_table, initial, images),
        in_range(map_table),
        links_fit(link, map_table),
        initial < map_table.len(),
        0 <= k < order.len(),
    ensures
        images[order[k] as int] == walk(map_table, initial as int, tree_path(link, k)),
        images[order[k] as int] < map_table.len(),
    decreases k,
{
    if k > 0 {
        let j = link[k].0 as int;
        let g = link[k].1;
        assert(link[k].0 < k);
        lemma_index_moved(order, link, map_table, initial, images, j);
        lemma_walk_push(map_table, initial as int, tree_path(link, j), g);
        let from = images[order[j] as int];
        assert(g < map_table[from as int].len());
        assert(images[order[k] as int] == map_table[from as int][g as int]);
    }
}

/// A list that is carried along a tree is moved along the word through
/// the tree.
pub proof fn lemma_list_moved(
    order: Seq<usize>,
    link: Seq<(usize, usize)>,
    map_table: Seq<Seq<usize>>,
    initial: Seq<usize>,
    images: Seq<Seq<usize>>,
    k: int,
)
    requires
        link.len() == order.len(),
        forall|q: int| 1 <= q < order.len() ==> (#[trigger] link[q]).0 < q,
        lists_carried(order, link, map_table, initial, images),
        in_range(map_table),
        links_fit(link, map_table),
        list_below(initial, map_table.len() as int),
        0 <= k < order.len(),
    ensures
        images[order[k] as int] == list_moved(map_table, initial, tree_path(link, k)),
        list_below(images[order[k] as int], map_table.len() as int),
        forall|i: int|
            0 <= i < initial.len() ==> 0 <= #[trigger] walk(
                map_table,
                initial[i] as int,
                tree_path(link, k),
            ) < map_table.len(),
    decreases k,
{
    if k > 0 {
        let j = link[k].0 as int;
        let g = link[k].1;
        assert(link[k].0 < k);
        lemma_list_moved(order, link, map_table, initial, images, j);
        let from = images[order[j] as int];
        let here = images[order[k] as int];
        assert(here == map_list(map_table, from, g));
        assert(here.len() == initial.len());
        assert forall|i: int| 0 <= i < initial.len() implies (#[trigger] here[i]) == walk(
            map_table,
            initial[i] as int,
            tree_path(link, k),
        ) && here[i] < map_table.len() by {
            lemma_walk_push(map_table, initial[i] as int, tree_path(link, j), g);
            let at = walk(map_table, initial[i] as int, tree_path(link, j));
            assert(0 <= at < map_table.len());
            assert(from[i] == at);
            assert(g < map_table[at].len());
            assert(here[i] == map_table[at][g as int]);
        }
        assert(here =~= list_moved(map_table, initial, tree_path(link, k)));
        assert forall|i: int| 0 <= i < initial.len() implies 0 <= #[trigger] walk(
            map_table,
            initial[i] as int,
            tree_path(link, k),
        ) < map_table.len() by {
            assert(here[i] < map_table.len());
        }
    } else {
        assert(tree_path(link, 0) =~= Seq::<usize>::empty());
        assert(images[order[0] as int] =~= list_moved(map_table, initial, tree_path(link, 0)));
    }
}

/// A breadth-first tree: the order of discovery, the edge over which every
/// coset was found, and the position of every coset.
pub type Tree = (Seq<usize>, Seq<(usize, usize)>, Seq<Option<usize>>);

/// The coset `c` has a position in the tree.
pub open spec fn in_tree(tree: Tree, c: int) -> bool {
    0 <= c < tree.2.len() && tree.2[c] is Some
}

/// The word through the tree to the coset `c`.
pub open spec fn word_to(tree: Tree, c: int) -> Seq<usize> {
    tree_path(tree.1, tree.2[c]->Some_0 as int)
}

impl Mesh {
    /// The edge `e` is the first edge carried along the word `w`: its
    /// ends are the first two vertices, and its faces the faces around the
    /// first edge, carried along `w`.
    pub open spec fn edge_placed(
        &self,
        vt: Seq<Seq<usize>>,
        ft: Seq<Seq<usize>>,
        around: Seq<usize>,
        e: int,
        w: Seq<usize>,
    ) -> bool {
        &&& self.edges@[e].hd_vertex == walk(vt, 0, w)
        &&& self.edges@[e].tl_vertex == walk(vt, 1, w)
        &&& self.edges@[e].faces@ == list_moved(ft, around, w)
    }

    /// The edges of the face `f` are the edges around the first face,
    /// carried along the word `w`.
    pub open spec fn face_placed(&self, et: Seq<Seq<usize>>, around: Seq<usize>, f: int, w: Seq<usize>) -> bool {
        self.faces@[f].edges@ == list_moved(et, around, w)
    }

    /// The faces of the cell `c` are the faces of the first cell, carried
    /// along the word `w`, and the mirrors of the cell are that word.
    pub open spec fn cell_placed(&self, ft: Seq<Seq<usize>>, around: Seq<usize>, c: int, w: Seq<usize>) -> bool {
        &&& self.cells@[c].faces@ == list_moved(ft, around, w)
        &&& self.cells@[c].mirrors@ == w
    }

    /// The mesh is laid out over the coset tables `vt`, `et`, `ft` and
    /// `ct` of the vertices, edges, faces and cells of the polytope
    /// `symbol`, along their breadth-first trees: it has one element for
    /// every coset; the faces around the first edge are those that the
    /// rotation about it carries the first face through, the edges around
    /// the first face those that its own rotation carries the first edge
    /// through, and the faces of the first cell those that the first three
    /// mirrors carry the first face to; every other element is carried
    /// there from the first of its kind along the word through the tree of
    /// its kind; and the mirrors of a vertex and of a cell are the word
    /// through the tree to it.
    pub open spec fn laid_out(
        &self,
        symbol: [usize; 3],
        tables: (Seq<Seq<usize>>, Seq<Seq<usize>>, Seq<Seq<usize>>, Seq<Seq<usize>>),
        trees: (Tree, Tree, Tree, Tree),
        edge_faces: Seq<usize>,
        face_edges: Seq<usize>,
        cell_faces: Seq<usize>,
    ) -> bool {
        let (vt, et, ft, ct) = tables;
        &&& element_tables(symbol, vt, et, ft, ct)
        &&& vt.len() >= 2
        &&& self.vertex_data@.len() == vt.len()
        &&& self.vertex_mirrors@.len() == vt.len()
        &&& self.edges@.len() == et.len()
        &&& self.faces@.len() == ft.len()
        &&& self.cells@.len() == ct.len()
        &&& is_orbit(ft, 2, 3, edge_faces)
        &&& is_orbit(et, 0, 1, face_edges)
        &&& is_search_order(columns(ft, 3), cell_faces)
        &&& is_bfs_tree(vt, 0, trees.0.0, trees.0.1, trees.0.2)
        &&& is_bfs_tree(et, 0, trees.1.0, trees.1.1, trees.1.2)
        &&& is_bfs_tree(ft, 0, trees.2.0, trees.2.1, trees.2.2)
        &&& is_bfs_tree(ct, 0, trees.3.0, trees.3.1, trees.3.2)
        &&& forall|v: int| 0 <= v < vt.len() ==> #[trigger] self.vertex_placed(trees.0, v)
        &&& forall|e: int|
            0 <= e < et.len() ==> #[trigger] in_tree(trees.1, e) && self.edge_placed(
                vt,
                ft,
                edge_faces,
                e,
                word_to(trees.1, e),
            )
        &&& forall|f: int|
            0 <= f < ft.len() ==> #[trigger] in_tree(trees.2, f) && self.face_placed(
                et,
                face_edges,
                f,
                word_to(trees.2, f),
            )
        &&& forall|c: int|
            0 <= c < ct.len() ==> #[trigger] in_tree(trees.3, c) && self.cell_placed(
                ft,
                cell_faces,
                c,
                word_to(trees.3, c),
            )
    }

    /// The mirrors of the vertex `v` are the word through the tree to it.
    pub open spec fn vertex_placed(&self, tree: Tree, v: int) -> bool {
        in_tree(tree, v) && self.vertex_mirrors@[v]@ == word_to(tree, v)
    }

    /// The mesh is laid out as the mesh of the polytope `symbol`, in
    /// order, but it is not well formed or not closed.
    pub open spec fn is_open_polytope(&self, symbol: [usize; 3]) -> bool {
        &&& self.is_polytope(symbol)
        &&& self.in_order()
        &&& !(self.well_formed() && self.closed() && self.mirrors_in_range())
    }

    /// The mesh is the mesh of the regular polytope `symbol`.
    pub open spec fn is_polytope(&self, symbol: [usize; 3]) -> bool {
        exists|
            tables: (Seq<Seq<usize>>, Seq<Seq<usize>>, Seq<Seq<usize>>, Seq<Seq<usize>>),
            trees: (Tree, Tree, Tree, Tree),
            edge_faces: Seq<usize>,
            face_edges: Seq<usize>,
            cell_faces: Seq<usize>,
        | #[trigger] self.laid_out(symbol, tables, trees, edge_faces, face_edges, cell_faces)
    }
}

/// The words that follow a tree are the words through the tree.
pub proof fn lemma_paths_through(tree: Tree, paths: Seq<Seq<usize>>, k: int)
    requires
        paths_follow(tree.0, tree.1, tree.2, paths),
        tree.1.len() == tree.0.len(),
        forall|q: int| 1 <= q < tree.0.len() ==> (#[trigger] tree.1[q]).0 < q,
        0 <= k < tree.0.len(),
    ensures
        paths[tree.0[k] as int] == tree_path(tree.1, k),
    decreases k,
{
    if k > 0 {
        assert(tree.1[k].0 < k);
        lemma_paths_through(tree, paths, tree.1[k].0 as int);
    } else {
        assert(paths[tree.0[0] as int] =~= Seq::<usize>::empty());
    }
}

/// In a breadth-first tree of a table in which every coset is reached,
/// every coset has its position, and the word through the tree leads to
/// it.
pub proof fn lemma_tree_reaches(
    t: Seq<Seq<usize>>,
    order: Seq<usize>,
    link: Seq<(usize, usize)>,
    slot: Seq<Option<usize>>,
    c: int,
)
    requires
        is_bfs_tree(t, 0, order, link, slot),
        in_range(t),
        connected(t),
        0 <= c < t.len(),
    ensures
        slot[c] is Some,
        0 <= slot[c]->Some_0 < order.len(),
        order[slot[c]->Some_0 as int] == c,
        leads_to(t, 0, tree_path(link, slot[c]->Some_0 as int), c),
{
    assert(reachable(t, c));
    let word = choose|word: Seq<usize>| #[trigger] leads_to(t, 0, word, c);
    lemma_walk_is_no_shorter(t, 0, order, link, slot, word);
    let k = slot[c]->Some_0 as int;
    lemma_tree_path_leads(t, 0, order, link, slot, k);
}

/// The generators of a breadth-first tree of a table with four columns
/// are columns of every table with four columns.
pub proof fn lemma_links_fit(
    t: Seq<Seq<usize>>,
    order: Seq<usize>,
    link: Seq<(usize, usize)>,
    slot: Seq<Option<usize>>,
    map_table: Seq<Seq<usize>>,
)
    requires
        is_bfs_tree(t, 0, order, link, slot),
        rectangular(t, 4),
        rectangular(map_table, 4),
    ensures
        links_fit(link, map_table),
        link.len() == order.len(),
        forall|q: int| 1 <= q < order.len() ==> (#[trigger] link[q]).0 < q,
{
    assert forall|q: int| 1 <= q < order.len() implies (#[trigger] link[q]).0 < q && link[q].1
        < 4 by {
        assert(tree_edge(t, order, link[q], q));
    }
    assert forall|k: int, c: int| 1 <= k < link.len() && 0 <= c < map_table.len() implies (
    #[trigger] link[k]).1 < (#[trigger] map_table[c]).len() by {}
}

/// A mesh whose elements were carried along the breadth-first trees of
/// the coset tables is laid out over the tables.
pub proof fn lemma_laid_out(
    mesh: &Mesh,
    symbol: [usize; 3],
    tables: (Seq<Seq<usize>>, Seq<Seq<usize>>, Seq<Seq<usize>>, Seq<Seq<usize>>),
    trees: (Tree, Tree, Tree, Tree),
    heads: Seq<usize>,
    tails: Seq<usize>,
    edge_faces: Seq<Seq<usize>>,
    face_edges: Seq<Seq<usize>>,
    cell_faces: Seq<Seq<usize>>,
    first_edge_faces: Seq<usize>,
    first_face_edges: Seq<usize>,
    first_cell_faces: Seq<usize>,
    vertex_paths: Seq<Seq<usize>>,
    cell_paths: Seq<Seq<usize>>,
)
    requires
        element_tables(symbol, tables.0, tables.1, tables.2, tables.3),
        tables.0.len() >= 2,
        is_bfs_tree(tables.0, 0, trees.0.0, trees.0.1, trees.0.2),
        is_bfs_tree(tables.1, 0, trees.1.0, trees.1.1, trees.1.2),
        is_bfs_tree(tables.2, 0, trees.2.0, trees.2.1, trees.2.2),
        is_bfs_tree(tables.3, 0, trees.3.0, trees.3.1, trees.3.2),
        paths_follow(trees.0.0, trees.0.1, trees.0.2, vertex_paths),
        paths_follow(trees.3.0, trees.3.1, trees.3.2, cell_paths),
        index_carried(trees.1.0, trees.1.1, tables.0, 0, heads),
        index_carried(trees.1.0, trees.1.1, tables.0, 1, tails),
        lists_carried(trees.1.0, trees.1.1, tables.2, first_edge_faces, edge_faces),
        lists_carried(trees.2.0, trees.2.1, tables.1, first_face_edges, face_edges),
        lists_carried(trees.3.0, trees.3.1, tables.2, first_cell_faces, cell_faces),
        list_below(first_edge_faces, tables.2.len() as int),
        list_below(first_face_edges, tables.1.len() as int),
        list_below(first_cell_faces, tables.2.len() as int),
        is_orbit(tables.2, 2, 3, first_edge_faces),
        is_orbit(tables.1, 0, 1, first_face_edges),
        is_search_order(columns(tables.2, 3), first_cell_faces),
        mesh.vertex_data@.len() == tables.0.len(),
        mesh.vertex_mirrors@.len() == tables.0.len(),
        mesh.edges@.len() == tables.1.len(),
        mesh.faces@.len() == tables.2.len(),
        mesh.cells@.len() == tables.3.len(),
        forall|e: int|
            0 <= e < tables.1.len() ==> (#[trigger] mesh.edges@[e]).hd_vertex == heads[e]
                && mesh.edges@[e].tl_vertex == tails[e] && mesh.edges@[e].faces@ == edge_faces[e],
        forall|f: int|
            0 <= f < tables.2.len() ==> (#[trigger] mesh.faces@[f]).edges@ == face_edges[f],
        forall|c: int|
            0 <= c < tables.3.len() ==> (#[trigger] mesh.cells@[c]).faces@ == cell_faces[c]
                && mesh.cells@[c].mirrors@ == cell_paths[c],
        forall|v: int|
            0 <= v < tables.0.len() ==> (#[trigger] mesh.vertex_mirrors@[v])@ == vertex_paths[v],
    ensures
        mesh.is_polytope(symbol),
{
    let (vt, et, ft, ct) = tables;
    lemma_links_fit(vt, trees.0.0, trees.0.1, trees.0.2, vt);
    lemma_links_fit(et, trees.1.0, trees.1.1, trees.1.2, vt);
    lemma_links_fit(et, trees.1.0, trees.1.1, trees.1.2, ft);
    lemma_links_fit(ft, trees.2.0, trees.2.1, trees.2.2, et);
    lemma_links_fit(ct, trees.3.0, trees.3.1, trees.3.2, ft);
    assert forall|v: int| 0 <= v < vt.len() implies #[trigger] mesh.vertex_placed(trees.0, v) by {
        lemma_tree_reaches(vt, trees.0.0, trees.0.1, trees.0.2, v);
        lemma_paths_through(trees.0, vertex_paths, trees.0.2[v]->Some_0 as int);
    }
    assert forall|e: int| 0 <= e < et.len() implies #[trigger] in_tree(trees.1, e) && mesh.edge_placed(
        vt,
        ft,
        first_edge_faces,
        e,
        word_to(trees.1, e),
    ) by {
        lemma_tree_reaches(et, trees.1.0, trees.1.1, trees.1.2, e);
        let k = trees.1.2[e]->Some_0 as int;
        lemma_index_moved(trees.1.0, trees.1.1, vt, 0, heads, k);
        lemma_index_moved(trees.1.0, trees.1.1, vt, 1, tails, k);
        lemma_list_moved(trees.1.0, trees.1.1, ft, first_edge_faces, edge_faces, k);
    }
    assert forall|f: int| 0 <= f < ft.len() implies #[trigger] in_tree(trees.2, f) && mesh.face_placed(
        et,
        first_face_edges,
        f,
        word_to(trees.2, f),
    ) by {
        lemma_tree_reaches(ft, trees.2.0, trees.2.1, trees.2.2, f);
        let k = trees.2.2[f]->Some_0 as int;
        lemma_list_moved(trees.2.0, trees.2.1, et, first_face_edges, face_edges, k);
    }
    assert forall|c: int| 0 <= c < ct.len() implies #[trigger] in_tree(trees.3, c) && mesh.cell_placed(
        ft,
        first_cell_faces,
        c,
        word_to(trees.3, c),
    ) by {
        lemma_tree_reaches(ct, trees.3.0, trees.3.1, trees.3.2, c);
        let k = trees.3.2[c]->Some_0 as int;
        lemma_list_moved(trees.3.0, trees.3.1, ft, first_cell_faces, cell_faces, k);
        lemma_paths_through(trees.3, cell_paths, k);
    }
    assert(mesh.laid_out(
        symbol,
        tables,
        trees,
        first_edge_faces,
        first_face_edges,
        first_cell_faces,
    ));
}

/// Whether `x` is among the first `upto` indices of `s`.
pub open spec fn occurs_before(s: Seq<usize>, upto: int, x: usize) -> bool {
    exists|i: int| 0 <= i < upto && i < s.len() && #[trigger] s[i] == x
}

/// Every index of `s` is larger than the one before it.
pub open spec fn ascending(s: Seq<usize>) -> bool {
    forall|k: int, l: int| 0 <= k < l < s.len() ==> s[k] < s[l]
}

/// The vertex `v` is an end of the edge at `j` of the face at `i` of the
/// cell `c`.
pub open spec fn corner_at(
    cells: Seq<Cell>,
    faces: Seq<Face>,
    edges: Seq<Edge>,
    c: int,
    i: int,
    j: int,
    v: int,
) -> bool {
    &&& 0 <= i < cells[c].faces@.len()
    &&& 0 <= j < faces[cells[c].faces@[i] as int].edges@.len()
    &&& {
        let e = edges[faces[cells[c].faces@[i] as int].edges@[j] as int];
        e.hd_vertex == v || e.tl_vertex == v
    }
}

/// The vertex `v` is an end of an edge of a face of the cell `c`.
pub open spec fn touches(cells: Seq<Cell>, faces: Seq<Face>, edges: Seq<Edge>, c: int, v: int) -> bool {
    exists|i: int, j: int| #[trigger] corner_at(cells, faces, edges, c, i, j, v)
}

/// The cell `c` lists the face `f`.
pub open spec fn lists_face(cells: Seq<Cell>, c: int, f: usize) -> bool {
    0 <= c < cells.len() && cells[c].faces@.contains(f)
}

/// What the face `f` knows of the cells below `upto`: its first cell is
/// the first of them that lists it, and its second cell the last of them
/// that lists it, if that is another one.
pub open spec fn face_told(cells: Seq<Cell>, face: Face, f: usize, upto: int) -> bool {
    &&& face.hd_cell == NO_CELL ==> face.tl_cell == NO_CELL && forall|c: int|
        0 <= c < upto ==> !#[trigger] lists_face(cells, c, f)
    &&& face.hd_cell != NO_CELL ==> {
        &&& face.hd_cell < upto
        &&& lists_face(cells, face.hd_cell as int, f)
        &&& forall|c: int| 0 <= c < face.hd_cell ==> !#[trigger] lists_face(cells, c, f)
    }
    &&& face.hd_cell != NO_CELL && face.tl_cell == NO_CELL ==> forall|c: int|
        face.hd_cell < c < upto ==> !#[trigger] lists_face(cells, c, f)
    &&& face.tl_cell != NO_CELL ==> {
        &&& face.hd_cell != NO_CELL
        &&& face.hd_cell < face.tl_cell < upto
        &&& lists_face(cells, face.tl_cell as int, f)
        &&& forall|c: int| face.tl_cell < c < upto ==> !#[trigger] lists_face(cells, c, f)
    }
}

/// What the face `f` knows while the cell `c` tells its faces, of which
/// the first `i` are told.
pub open spec fn face_being_told(cells: Seq<Cell>, face: Face, f: usize, c: int, i: int) -> bool {
    if occurs_before(cells[c].faces@, i, f) {
        face_told(cells, face, f, c + 1)
    } else {
        face_told(cells, face, f, c)
    }
}

/// The face at position `i` of the cell `c` is told the cell.
pub proof fn lemma_face_step(cells: Seq<Cell>, before: Face, after: Face, f: usize, c: int, i: int)
    requires
        0 <= c < cells.len(),
        c < NO_CELL,
        cells[c].faces@.no_duplicates(),
        0 <= i < cells[c].faces@.len(),
        cells[c].faces@[i] == f,
        face_being_told(cells, before, f, c, i),
        after.hd_cell == if before.hd_cell == NO_CELL {
            c as usize
        } else {
            before.hd_cell
        },
        after.tl_cell == if before.hd_cell == NO_CELL {
            before.tl_cell
        } else {
            c as usize
        },
    ensures
        face_being_told(cells, after, f, c, i + 1),
{
    let list = cells[c].faces@;
    if occurs_before(list, i, f) {
        let earlier = choose|earlier: int| 0 <= earlier < i && earlier < list.len() && #[trigger] list[earlier] == f;
        assert(list[earlier] == list[i]);
    }
    assert(face_told(cells, before, f, c));
    assert(occurs_before(list, i + 1, f)) by {
        assert(list[i] == f);
    }
    assert(lists_face(cells, c, f));
}

/// A face that is not at position `i` of the cell `c` knows what it knew.
pub proof fn lemma_face_other(cells: Seq<Cell>, face: Face, f: usize, c: int, i: int)
    requires
        0 <= c < cells.len(),
        0 <= i < cells[c].faces@.len(),
        cells[c].faces@[i] != f,
        face_being_told(cells, face, f, c, i),
    ensures
        face_being_told(cells, face, f, c, i + 1),
{
    let list = cells[c].faces@;
    if occurs_before(list, i + 1, f) {
        let at = choose|at: int| 0 <= at < i + 1 && at < list.len() && #[trigger] list[at] == f;
        assert(list[at] == f);
        assert(occurs_before(list, i, f));
    }
    if occurs_before(list, i, f) {
        let at = choose|at: int| 0 <= at < i && at < list.len() && #[trigger] list[at] == f;
        assert(list[at] == f);
        assert(occurs_before(list, i + 1, f));
    }
}

/// When the cell `c` has told all its faces, every face knows of the
/// cells up to `c`.
pub proof fn lemma_face_done(cells: Seq<Cell>, face: Face, f: usize, c: int)
    requires
        0 <= c < cells.len(),
        face_being_told(cells, face, f, c, cells[c].faces@.len() as int),
    ensures
        face_told(cells, face, f, c + 1),
{
    let list = cells[c].faces@;
    if !occurs_before(list, list.len() as int, f) {
        if list.contains(f) {
            let at = choose|at: int| 0 <= at < list.len() && list[at] == f;
            assert(list[at] == f);
            assert(occurs_before(list, list.len() as int, f));
        }
        assert(!lists_face(cells, c, f));
    }
}

/// The vertex `v` lists the cell `c`.
pub open spec fn lists_cell(data: Seq<VertexData>, v: int, c: usize) -> bool {
    0 <= v < data.len() && data[v].cells@.contains(c)
}

/// Every vertex at a corner of the cell `c` before the edge at `upto_j`
/// of the face at `upto_i` lists the cell.
pub open spec fn corners_told(
    cells: Seq<Cell>,
    faces: Seq<Face>,
    edges: Seq<Edge>,
    data: Seq<VertexData>,
    c: usize,
    upto_i: int,
    upto_j: int,
) -> bool {
    forall|i: int, j: int, v: int|
        (i < upto_i || (i == upto_i && j < upto_j)) && #[trigger] corner_at(
            cells,
            faces,
            edges,
            c as int,
            i,
            j,
            v,
        ) ==> lists_cell(data, v, c)
}

/// Every vertex of the cell `c` lists the cell.
pub open spec fn cell_told(
    cells: Seq<Cell>,
    faces: Seq<Face>,
    edges: Seq<Edge>,
    data: Seq<VertexData>,
    c: usize,
) -> bool {
    forall|i: int, j: int, v: int| #[trigger]
        corner_at(cells, faces, edges, c as int, i, j, v) ==> lists_cell(data, v, c)
}

/// The vertices of `after` list every cell that they list in `before`.
pub open spec fn told_more(before: Seq<VertexData>, after: Seq<VertexData>) -> bool {
    &&& before.len() == after.len()
    &&& forall|v: int, c: usize| #[trigger] lists_cell(before, v, c) ==> lists_cell(after, v, c)
}

/// A vertex that is made to list a cell, unless it lists it, lists it,
/// and every vertex lists what it listed.
pub proof fn lemma_told_step(before: Seq<VertexData>, after: Seq<VertexData>, v: int, c: usize)
    requires
        0 <= v < before.len(),
        after.len() == before.len(),
        forall|u: int| 0 <= u < before.len() && u != v ==> after[u] == before[u],
        after[v].cells@ == if before[v].cells@.contains(c) {
            before[v].cells@
        } else {
            before[v].cells@.push(c)
        },
    ensures
        told_more(before, after),
        lists_cell(after, v, c),
{
    assert forall|u: int, x: usize| #[trigger] lists_cell(before, u, x) implies lists_cell(
        after,
        u,
        x,
    ) by {
        if u == v && !before[v].cells@.contains(c) {
            let k = choose|k: int| 0 <= k < before[v].cells@.len() && before[v].cells@[k] == x;
            assert(after[v].cells@[k] == x);
        }
    }
    if !before[v].cells@.contains(c) {
        assert(after[v].cells@[before[v].cells@.len() as int] == c);
    }
}

/// What was told stays told when vertices list more.
pub proof fn lemma_told_kept(
    cells: Seq<Cell>,
    faces: Seq<Face>,
    edges: Seq<Edge>,
    before: Seq<VertexData>,
    after: Seq<VertexData>,
    c: usize,
    upto_i: int,
    upto_j: int,
)
    requires
        told_more(before, after),
    ensures
        cell_told(cells, faces, edges, before, c) ==> cell_told(cells, faces, edges, after, c),
        corners_told(cells, faces, edges, before, c, upto_i, upto_j) ==> corners_told(
            cells,
            faces,
            edges,
            after,
            c,
            upto_i,
            upto_j,
        ),
{
    if cell_told(cells, faces, edges, before, c) {
        assert forall|i: int, j: int, v: int| #[trigger]
            corner_at(cells, faces, edges, c as int, i, j, v) implies lists_cell(after, v, c) by {
            assert(lists_cell(before, v, c));
        }
    }
    if corners_told(cells, faces, edges, before, c, upto_i, upto_j) {
        assert forall|i: int, j: int, v: int|
            (i < upto_i || (i == upto_i && j < upto_j)) && #[trigger] corner_at(
                cells,
                faces,
                edges,
                c as int,
                i,
                j,
                v,
            ) implies lists_cell(after, v, c) by {
            assert(lists_cell(before, v, c));
        }
    }
}

impl Mesh {
    /// Every face names the first and the last cell that lists it, and
    /// every vertex lists, in their order, the cells that it is a vertex of,
    /// and no others.
    pub open spec fn in_order(&self) -> bool {
        &&& forall|f: usize|
            f < self.faces@.len() ==> #[trigger] face_told(
                self.cells@,
                self.faces@[f as int],
                f,
                self.cells@.len() as int,
            )
        &&& forall|c: usize|
            c < self.cells@.len() ==> #[trigger] cell_told(
                self.cells@,
                self.faces@,
                self.edges@,
                self.vertex_data@,
                c,
            )
        &&& forall|f: int|
            0 <= f < self.faces@.len() && (#[trigger] self.faces@[f]).tl_cell != NO_CELL
                ==> self.faces@[f].hd_cell < self.faces@[f].tl_cell
        &&& forall|v: int|
            0 <= v < self.vertex_data@.len() ==> ascending((#[trigger] self.vertex_data@[v]).cells@)
        &&& forall|v: int, k: int|
            0 <= v < self.vertex_data@.len() && 0 <= k < self.vertex_data@[v].cells@.len()
                ==> touches(
                self.cells@,
                self.faces@,
                self.edges@,
                (#[trigger] self.vertex_data@[v].cells@[k]) as int,
                v,
            )
    }
}

/// A list without repetitions that is moved along a word has no
/// repetitions.
pub proof fn lemma_moved_distinct(t: Seq<Seq<usize>>, num_gens: nat, s: Seq<usize>, w: Seq<usize>)
    requires
        acts(t, num_gens),
        word_below(w, num_gens),
        list_below(s, t.len() as int),
        s.no_duplicates(),
    ensures
        list_moved(t, s, w).no_duplicates(),
{
    let moved = list_moved(t, s, w);
    assert forall|i: int, j: int| 0 <= i < moved.len() && 0 <= j < moved.len() && i != j implies moved[i]
        != moved[j] by {
        assert(s[i] < t.len() && s[j] < t.len());
        lemma_walk_acts(t, num_gens, s[i] as int, w);
        lemma_walk_acts(t, num_gens, s[j] as int, w);
        if moved[i] == moved[j] {
            lemma_walk_injective(t, num_gens, s[i] as int, s[j] as int, w);
        }
    }
}

/// No cell of a mesh that is carried along the tree of its cells lists a
/// face twice.
pub proof fn lemma_cell_faces_distinct(
    ft: Seq<Seq<usize>>,
    ct: Seq<Seq<usize>>,
    cell_tree: (Seq<usize>, Seq<(usize, usize)>, Seq<Option<usize>>),
    cell_faces: Seq<Seq<usize>>,
    first_cell_faces: Seq<usize>,
    c: int,
)
    requires
        acts(ft, 4),
        acts(ct, 4),
        connected(ct),
        is_bfs_tree(ct, 0, cell_tree.0, cell_tree.1, cell_tree.2),
        lists_carried(cell_tree.0, cell_tree.1, ft, first_cell_faces, cell_faces),
        list_below(first_cell_faces, ft.len() as int),
        is_search_order(columns(ft, 3), first_cell_faces),
        first_cell_faces.len() <= usize::MAX,
        0 <= c < ct.len(),
    ensures
        cell_faces[c].no_duplicates(),
{
    lemma_links_fit(ct, cell_tree.0, cell_tree.1, cell_tree.2, ft);
    lemma_tree_reaches(ct, cell_tree.0, cell_tree.1, cell_tree.2, c);
    let k = cell_tree.2[c]->Some_0 as int;
    let w = tree_path(cell_tree.1, k);
    lemma_list_moved(cell_tree.0, cell_tree.1, ft, first_cell_faces, cell_faces, k);
    lemma_walk_letters(ct, 4, 0, w);
    let (link, slot) = choose|link: Seq<(usize, usize)>, slot: Seq<Option<usize>>| #[trigger]
        is_bfs_tree(columns(ft, 3), 0, first_cell_faces, link, slot);
    assert(first_cell_faces.no_duplicates()) by {
        assert forall|i: int, j: int|
            0 <= i < first_cell_faces.len() && 0 <= j < first_cell_faces.len() && i
                != j implies first_cell_faces[i] != first_cell_faces[j] by {
            assert(slot[first_cell_faces[i] as int] == Some(i as usize));
            assert(slot[first_cell_faces[j] as int] == Some(j as usize));
        }
    }
    lemma_moved_distinct(ft, 4, first_cell_faces, w);
}

} // verus!
