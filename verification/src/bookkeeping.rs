//! The edge bookkeeping that loading and expanding keep: every edge has one
//! colour (the colours number half the edge list), and every edge joins two
//! vertices that are there.
use vstd::prelude::*;

use crate::element::{
    cycle_edges, edges_distinct, element_result, lemma_cycle_edges_contents,
    lemma_element_edges_parity, lemma_merge_edges_contents, valid_element,
};
use crate::loader::{
    ends_with_off, expand_spec, expand_upto, facet_colors, index_list, facet_edge_total, facet_vertex_total, initial_model,
    lemma_expanded_edges_in_range, lemma_facet_colors_len, lemma_load_keeps_edges_distinct,
    load_spec, read_line_spec, read_lines_spec, renumber, OffModel,
};
use crate::scene::{EdgeColor, ExpansionSign, Scene};
use crate::text::text_lines;

verus! {

proof fn lemma_edge_total_push(facets: Seq<(Seq<usize>, nat)>, x: (Seq<usize>, nat), n: nat)
    requires
        n <= facets.len(),
    ensures
        facet_edge_total(facets.push(x), n) == facet_edge_total(facets, n),
        facet_vertex_total(facets.push(x), n) == facet_vertex_total(facets, n),
    decreases n,
{
    if n > 0 {
        lemma_edge_total_push(facets, x, (n - 1) as nat);
        assert(facets.push(x)[n - 1] == facets[n - 1]);
    }
}

/// Expanding `n` elements hands out one facet per element, two edge
/// endpoints per edge the facets contribute, and the vertex numbers from
/// `base` on, one per facet vertex.
pub proof fn lemma_expansion_counts(data: Seq<Seq<Seq<usize>>>, rank: nat, base: nat, n: nat)
    ensures
        match expand_upto(data, rank, base, n) {
            Ok((edges, facets, next)) => {
                &&& facets.len() == n
                &&& edges.len() == 2 * facet_edge_total(facets, n)
                &&& next == base + facet_vertex_total(facets, n)
            },
            Err(_) => true,
        },
    decreases n,
{
    if n > 0 {
        lemma_expansion_counts(data, rank, base, (n - 1) as nat);
        match expand_upto(data, rank, base, (n - 1) as nat) {
            Err(_) => {},
            Ok((edges, facets, next)) => {
                if valid_element(data, rank, n - 1) {
                    let collected = element_result(data, rank, n - 1, Seq::empty(), Seq::empty());
                    lemma_element_edges_parity(data, rank, n - 1, Seq::empty(), Seq::empty());
                    let x = (collected.0, collected.1.len() / 2);
                    lemma_edge_total_push(facets, x, (n - 1) as nat);
                    let fs = facets.push(x);
                    assert(fs[n - 1] == x);
                    assert(renumber(collected.1, collected.0, next as int).len()
                        == collected.1.len());
                }
            },
        }
    }
}

/// Expanding the facets keeps the edge bookkeeping.  When the colours
/// `colors0` number half the edge list `edges0`, and those edges join
/// vertices numbered below `base` (the vertices there before), then after
/// the expansion adds its edges and their colours are added (see
/// `color_facets`): the colours still number half the edges, and every edge
/// joins vertices numbered below the next free number, which is `base` plus
/// the vertices the facets add; the added edges join added vertices only.
pub proof fn lemma_expansion_keeps_bookkeeping(
    data: Seq<Seq<Seq<usize>>>,
    rank: nat,
    base: nat,
    edges0: Seq<usize>,
    colors0: Seq<EdgeColor>,
    polytope_rank: usize,
    on_axes: Seq<bool>,
    face_count: usize,
)
    requires
        colors0.len() * 2 == edges0.len(),
        forall|j: int| 0 <= j < edges0.len() ==> #[trigger] edges0[j] < base,
    ensures
        match expand_spec(data, rank, base) {
            Ok((edges, facets, next)) => {
                let all_edges = edges0 + edges;
                let all_colors = colors0 + facet_colors(
                    facets,
                    polytope_rank,
                    on_axes,
                    face_count,
                    facets.len(),
                );
                &&& all_colors.len() * 2 == all_edges.len()
                &&& next == base + facet_vertex_total(facets, facets.len())
                &&& forall|j: int| 0 <= j < all_edges.len() ==> #[trigger] all_edges[j] < next
                &&& forall|j: int| edges0.len() <= j < all_edges.len() ==> base <= #[trigger] all_edges[j]
            },
            Err(_) => true,
        },
{
    if !(rank < 2 || rank - 2 >= data.len()) {
        let n = data[rank - 2].len();
        lemma_expansion_counts(data, rank, base, n);
        lemma_expanded_edges_in_range(data, rank, base, n);
        match expand_upto(data, rank, base, n) {
            Ok((edges, facets, next)) => {
                lemma_facet_colors_len(facets, polytope_rank, on_axes, face_count, facets.len());
                let all_edges = edges0 + edges;
                assert forall|j: int| 0 <= j < all_edges.len() implies #[trigger] all_edges[j]
                    < next by {
                    if j < edges0.len() {
                        assert(all_edges[j] == edges0[j]);
                    } else {
                        assert(all_edges[j] == edges[j - edges0.len()]);
                    }
                }
                assert forall|j: int| edges0.len() <= j < all_edges.len() implies base
                    <= #[trigger] all_edges[j] by {
                    assert(all_edges[j] == edges[j - edges0.len()]);
                }
            },
            Err(_) => {},
        }
    }
}

/// A line read into a state whose expansion is on after the line leaves
/// the edges and colours alone, and found the expansion on before it too.
proof fn lemma_read_line_expanding(c: Seq<u8>, st: OffModel, line: (usize, usize), min_dimension: nat)
    ensures
        match read_line_spec(c, st, line, min_dimension) {
            Ok(next) => next.expansion == ExpansionSign::Positive ==> st.expansion
                == ExpansionSign::Positive && next.edges == st.edges && next.colors == st.colors,
            Err(_) => true,
        },
{
}

/// Reading that ends with the expansion on has added no edges and no
/// colours.
proof fn lemma_read_lines_expanding(
    c: Seq<u8>,
    lines: Seq<(usize, usize)>,
    n: nat,
    init: OffModel,
    min_dimension: nat,
)
    ensures
        match read_lines_spec(c, lines, n, init, min_dimension) {
            Ok(st) => st.expansion == ExpansionSign::Positive ==> st.edges == init.edges
                && st.colors == init.colors,
            Err(_) => true,
        },
    decreases n,
{
    if n > 0 {
        lemma_read_lines_expanding(c, lines, (n - 1) as nat, init, min_dimension);
        match read_lines_spec(c, lines, (n - 1) as nat, init, min_dimension) {
            Err(_) => {},
            Ok(st) => {
                if !st.done {
                    lemma_read_line_expanding(c, st, lines[n - 1], min_dimension);
                }
            },
        }
    }
}

/// A whole load keeps the edge bookkeeping.  Start from a scene whose
/// colours number half its edges, which join no pair of vertices twice and
/// only vertices numbered below `vertex_count`.  When the file `c` loads
/// (see `load_polytope`): with facet expansion off, the colours still
/// number half the edges, and when the scene's edges and the faces of the
/// file refer to the file's vertices only, so do all the edges; with it on, reading adds no edge, and once the
/// expanded facets' edges are coloured (see `color_facets`) the colours
/// still number half the edges, every edge joins vertices numbered below
/// the next free number (`vertex_count` plus the vertices the facets add),
/// and the added edges join added vertices only.
pub proof fn lemma_load_keeps_bookkeeping(
    c: Seq<u8>,
    scene: Scene,
    vertex_count: nat,
    on_axes: Seq<bool>,
    face_count: usize,
)
    requires
        scene.edge_colors@.len() * 2 == scene.edges@.len(),
        edges_distinct(scene.edges@),
        forall|j: int| 0 <= j < scene.edges@.len() ==> #[trigger] scene.edges@[j] < vertex_count,
    ensures
        match load_spec(c, scene) {
            Err(_) => true,
            Ok(m) => if m.expansion != ExpansionSign::Positive {
                &&& m.colors.len() * 2 == m.edges.len()
                &&& edges_below(scene.edges@, m.vertices.len()) && faces_below(
                    m.elements,
                    m.vertices.len(),
                ) ==> edges_below(m.edges, m.vertices.len())
            } else {
                &&& m.edges == scene.edges@
                &&& m.colors == scene.edge_colors@
                &&& match expand_spec(m.elements, m.expansion_rank, vertex_count) {
                    Ok((edges, facets, next)) => {
                        let all_edges = m.edges + edges;
                        let all_colors = m.colors + facet_colors(
                            facets,
                            m.rank as usize,
                            on_axes,
                            face_count,
                            facets.len(),
                        );
                        &&& all_colors.len() * 2 == all_edges.len()
                        &&& next == vertex_count + facet_vertex_total(facets, facets.len())
                        &&& forall|j: int| 0 <= j < all_edges.len() ==> #[trigger] all_edges[j] < next
                        &&& forall|j: int|
                            scene.edges@.len() <= j < all_edges.len() ==> vertex_count
                                <= #[trigger] all_edges[j]
                    },
                    Err(_) => true,
                }
            },
        },
{
    let lines = text_lines(c);
    let init = initial_model(scene);
    lemma_load_keeps_edges_distinct(c, scene);
    lemma_read_lines_expanding(c, lines, lines.len(), init, scene.min_dimension as nat);
    match load_spec(c, scene) {
        Err(_) => {},
        Ok(m) => {
            if edges_below(scene.edges@, m.vertices.len()) {
                lemma_load_edges_within(c, scene, m.vertices.len());
            }
            if m.expansion == ExpansionSign::Positive {
                lemma_expansion_keeps_bookkeeping(
                    m.elements,
                    m.expansion_rank,
                    vertex_count,
                    m.edges,
                    m.colors,
                    m.rank as usize,
                    on_axes,
                    face_count,
                );
            }
        },
    }
}

/// Every vertex index that the faces among `elements` list is below `v`.
pub open spec fn faces_below(elements: Seq<Seq<Seq<usize>>>, v: nat) -> bool {
    elements.len() > 0 ==> forall|k: int, i: int|
        0 <= k < elements[0].len() && 0 <= i < elements[0][k].len() ==> #[trigger] elements[0][k][i]
            < v
}

/// Every edge of `edges` joins vertices numbered below `v`.
pub open spec fn edges_below(edges: Seq<usize>, v: nat) -> bool {
    forall|j: int| 0 <= j < edges.len() ==> #[trigger] edges[j] < v
}

/// While reading goes on, a level of elements has been opened for each
/// section from the faces up to the current one.
pub open spec fn levels_open(st: OffModel) -> bool {
    !st.done && st.state >= 3 ==> st.elements.len() >= st.state - 2
}

/// One line keeps the levels open, keeps what came before among the faces,
/// and adds only edges between vertices that the faces list.
proof fn lemma_read_line_edges_below(
    c: Seq<u8>,
    st: OffModel,
    line: (usize, usize),
    min_dimension: nat,
    v: nat,
)
    requires
        levels_open(st),
        !st.done,
    ensures
        match read_line_spec(c, st, line, min_dimension) {
            Ok(next) => {
                &&& levels_open(next)
                &&& faces_below(next.elements, v) ==> faces_below(st.elements, v)
                &&& faces_below(next.elements, v) && edges_below(st.edges, v) ==> edges_below(
                    next.edges,
                    v,
                )
            },
            Err(_) => true,
        },
{
    let a = line.0 as int;
    let b = line.1 as int;
    match read_line_spec(c, st, line, min_dimension) {
        Err(_) => {},
        Ok(next) => {
            let content = !(b > a && c[a] == 35u8) && a != b && !ends_with_off(c, a, b) && st.rank
                != 0 && st.seen < u32::MAX && st.state >= 3;
            if content {
                match index_list(c, a, b) {
                    None => {},
                    Some(list) => {
                        let level = st.state - 3;
                        assert(level < st.elements.len());
                        if level == 0 {
                            assert(next.elements[0] == st.elements[0].push(list));
                        } else {
                            assert(next.elements[0] == st.elements[0]);
                        }
                    },
                }
            }
            if st.elements.len() > 0 {
                assert(next.elements.len() > 0 && next.elements[0].len() >= st.elements[0].len()
                    && forall|k: int|
                    0 <= k < st.elements[0].len() ==> #[trigger] next.elements[0][k]
                        == st.elements[0][k]);
                if faces_below(next.elements, v) {
                    assert forall|k: int, i: int|
                        0 <= k < st.elements[0].len() && 0 <= i
                            < st.elements[0][k].len() implies #[trigger] st.elements[0][k][i]
                        < v by {
                        assert(next.elements[0][k] == st.elements[0][k]);
                        assert(next.elements[0][k][i] < v);
                    }
                }
            }
            if content {
                match index_list(c, a, b) {
                    None => {},
                    Some(list) => {
                        let level = st.state - 3;
                        assert(level < st.elements.len());
                        if st.state == 3 && next.edges != st.edges {
                            let e0 = next.elements[0];
                            assert(e0 == st.elements[0].push(list));
                            assert(e0[e0.len() - 1] == list);
                            if faces_below(next.elements, v) && edges_below(st.edges, v) {
                                let cyc = cycle_edges(list);
                                assert forall|j: int| 0 <= j < next.edges.len() implies #[trigger] next.edges[j]
                                    < v by {
                                    let x = next.edges[j];
                                    assert(next.edges.contains(x));
                                    lemma_merge_edges_contents(st.edges, cyc, cyc.len() / 2, x);
                                    if cyc.contains(x) {
                                        lemma_cycle_edges_contents(list, x);
                                        let i = choose|i: int| 0 <= i < list.len() && list[i] == x;
                                        assert(e0[e0.len() - 1][i] < v);
                                    } else {
                                        let i = choose|i: int| 0 <= i < st.edges.len() && st.edges[i] == x;
                                        assert(st.edges[i] < v);
                                    }
                                }
                            }
                        }
                    },
                }
            }
        },
    }
}

/// Reading keeps the levels open, and its edges join vertices below `v`
/// when the starting edges do and the faces read list vertices below `v`.
proof fn lemma_read_lines_edges_below(
    c: Seq<u8>,
    lines: Seq<(usize, usize)>,
    n: nat,
    init: OffModel,
    min_dimension: nat,
    v: nat,
)
    requires
        levels_open(init),
    ensures
        match read_lines_spec(c, lines, n, init, min_dimension) {
            Ok(st) => {
                &&& levels_open(st)
                &&& faces_below(st.elements, v) ==> faces_below(init.elements, v)
                &&& faces_below(st.elements, v) && edges_below(init.edges, v) ==> edges_below(
                    st.edges,
                    v,
                )
            },
            Err(_) => true,
        },
    decreases n,
{
    if n > 0 {
        lemma_read_lines_edges_below(c, lines, (n - 1) as nat, init, min_dimension, v);
        match read_lines_spec(c, lines, (n - 1) as nat, init, min_dimension) {
            Err(_) => {},
            Ok(st) => {
                if !st.done {
                    lemma_read_line_edges_below(c, st, lines[n - 1], min_dimension, v);
                }
            },
        }
    }
}

/// A loaded file's edges join vertices that are there.  When the scene's
/// edges join vertices numbered below `v`, and every vertex index that the
/// file's faces list is below `v` (as when `v` counts the vertices and the
/// faces refer to them), then every edge after reading joins vertices
/// numbered below `v`.
pub proof fn lemma_load_edges_within(c: Seq<u8>, scene: Scene, v: nat)
    requires
        edges_below(scene.edges@, v),
    ensures
        match load_spec(c, scene) {
            Ok(m) => faces_below(m.elements, v) ==> edges_below(m.edges, v),
            Err(_) => true,
        },
{
    let lines = text_lines(c);
    lemma_read_lines_edges_below(
        c,
        lines,
        lines.len(),
        initial_model(scene),
        scene.min_dimension as nat,
        v,
    );
}

} // verus!
