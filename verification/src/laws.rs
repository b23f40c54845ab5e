//! Laws of reading a polytope file and of colouring expanded facets, stated
//! over what goes in and what comes out.
use vstd::prelude::*;

use crate::loader::{
    ends_with_off, facet_color_spec, facet_colors, facet_edge_total, initial_model,
    lemma_facet_colors_len, load_spec, read_line_spec, read_lines_spec, OffModel,
};
use crate::scene::{normalized_expansion_rank, white_spec, EdgeColor, Scene};
use crate::text::text_lines;

verus! {

/// A vertex of `length` coordinates read from a line with `coordinates`
/// non-empty pieces, padded up to `min_dimension`: every coordinate is kept,
/// and zeros are added only as far as the minimum dimension.
pub open spec fn padded(coordinates: nat, length: nat, min_dimension: nat) -> bool {
    &&& length >= coordinates
    &&& length >= min_dimension
    &&& (length == coordinates || length == min_dimension)
}

/// Every vertex read so far is padded, never cut.
pub open spec fn vertices_padded(st: OffModel, min_dimension: nat) -> bool {
    forall|k: int|
        0 <= k < st.vertices.len() ==> padded(
            (#[trigger] st.vertices[k]).0.len(),
            st.vertices[k].1,
            min_dimension,
        )
}

proof fn lemma_read_lines_padded(
    c: Seq<u8>,
    lines: Seq<(usize, usize)>,
    n: nat,
    init: OffModel,
    min_dimension: nat,
)
    requires
        vertices_padded(init, min_dimension),
    ensures
        match read_lines_spec(c, lines, n, init, min_dimension) {
            Ok(st) => vertices_padded(st, min_dimension),
            Err(_) => true,
        },
    decreases n,
{
    if n > 0 {
        lemma_read_lines_padded(c, lines, (n - 1) as nat, init, min_dimension);
        match read_lines_spec(c, lines, (n - 1) as nat, init, min_dimension) {
            Err(_) => {},
            Ok(st) => {
                if !st.done {
                    match read_line_spec(c, st, lines[n - 1], min_dimension) {
                        Err(_) => {},
                        Ok(next) => {
                            assert forall|k: int| 0 <= k < next.vertices.len() implies padded(
                                (#[trigger] next.vertices[k]).0.len(),
                                next.vertices[k].1,
                                min_dimension,
                            ) by {
                                if k < st.vertices.len() {
                                    assert(next.vertices[k] == st.vertices[k]);
                                }
                            }
                        },
                    }
                }
            },
        }
    }
}

/// Vertices are padded to the minimum dimension, never cut: each vertex
/// that a file loads has as many coordinates as its line holds, or the
/// scene's minimum dimension where that is more.
pub proof fn lemma_vertices_padded_not_cut(c: Seq<u8>, scene: Scene)
    ensures
        match load_spec(c, scene) {
            Ok(m) => forall|k: int|
                0 <= k < m.vertices.len() ==> {
                    let v = #[trigger] m.vertices[k];
                    &&& v.1 >= v.0.len()
                    &&& v.1 >= scene.min_dimension
                    &&& (v.1 == v.0.len() || v.1 == scene.min_dimension)
                },
            Err(_) => true,
        },
{
    let lines = text_lines(c);
    let min = scene.min_dimension as nat;
    lemma_read_lines_padded(c, lines, lines.len(), initial_model(scene), min);
    match load_spec(c, scene) {
        Err(_) => {},
        Ok(m) => {
            assert forall|k: int| 0 <= k < m.vertices.len() implies {
                let v = #[trigger] m.vertices[k];
                &&& v.1 >= v.0.len()
                &&& v.1 >= scene.min_dimension
                &&& (v.1 == v.0.len() || v.1 == scene.min_dimension)
            } by {
                assert(padded(m.vertices[k].0.len(), m.vertices[k].1, min));
            }
        },
    }
}

/// A data line (not a comment, not blank, not a header) read after the
/// header resolves the expansion rank setting against the rank that the
/// header gave, whatever the minimum dimension or the scene's dimension.
pub proof fn lemma_data_line_resolves_against_header_rank(
    c: Seq<u8>,
    st: OffModel,
    line: (usize, usize),
    min_dimension: nat,
)
    requires
        line.0 < line.1,
        c[line.0 as int] != 35u8,
        !ends_with_off(c, line.0 as int, line.1 as int),
        st.rank != 0,
    ensures
        match read_line_spec(c, st, line, min_dimension) {
            Ok(next) => next.expansion_rank == normalized_expansion_rank(st.expansion_rank, st.rank)
                && next.rank == st.rank,
            Err(_) => true,
        },
{
}

/// Two reader states that differ at most in the dimension and in the padded
/// lengths of their vertices.
pub open spec fn same_but_padding(m1: OffModel, m2: OffModel) -> bool {
    &&& OffModel { vertices: Seq::empty(), dimension: 0, ..m1 } == OffModel {
        vertices: Seq::empty(),
        dimension: 0,
        ..m2
    }
    &&& m1.vertices.len() == m2.vertices.len()
    &&& forall|k: int| 0 <= k < m1.vertices.len() ==> (#[trigger] m1.vertices[k]).0 == m2.vertices[k].0
}

proof fn lemma_read_lines_padding_only(
    c: Seq<u8>,
    lines: Seq<(usize, usize)>,
    n: nat,
    init1: OffModel,
    init2: OffModel,
    min1: nat,
    min2: nat,
)
    requires
        same_but_padding(init1, init2),
    ensures
        match (
            read_lines_spec(c, lines, n, init1, min1),
            read_lines_spec(c, lines, n, init2, min2),
        ) {
            (Ok(m1), Ok(m2)) => same_but_padding(m1, m2),
            (Err(e1), Err(e2)) => e1 == e2,
            _ => false,
        },
    decreases n,
{
    if n > 0 {
        lemma_read_lines_padding_only(c, lines, (n - 1) as nat, init1, init2, min1, min2);
        match (
            read_lines_spec(c, lines, (n - 1) as nat, init1, min1),
            read_lines_spec(c, lines, (n - 1) as nat, init2, min2),
        ) {
            (Ok(st1), Ok(st2)) => {
                assert(st1.done == st2.done && st1.state == st2.state && st1.rank == st2.rank
                    && st1.seen == st2.seen && st1.elements == st2.elements && st1.expansion
                    == st2.expansion && st1.expansion_rank == st2.expansion_rank && st1.edges
                    == st2.edges && st1.colors == st2.colors) by {
                    assert(OffModel { vertices: Seq::empty(), dimension: 0, ..st1 } == OffModel {
                        vertices: Seq::empty(),
                        dimension: 0,
                        ..st2
                    });
                }
                if !st1.done {
                    let line = lines[n - 1];
                    match (
                        read_line_spec(c, st1, line, min1),
                        read_line_spec(c, st2, line, min2),
                    ) {
                        (Ok(m1), Ok(m2)) => {
                            assert forall|k: int| 0 <= k < m1.vertices.len() implies (
                            #[trigger] m1.vertices[k]).0 == m2.vertices[k].0 by {
                                if k < st1.vertices.len() {
                                    assert(m1.vertices[k] == st1.vertices[k]);
                                    assert(m2.vertices[k] == st2.vertices[k]);
                                }
                            }
                        },
                        _ => {},
                    }
                }
            },
            _ => {},
        }
    }
}

/// The minimum dimension pads vertices and nothing else: loading a file
/// into two scenes that differ only in their minimum dimension and
/// dimension fails alike, or gives the same rank, the same expansion
/// settings (the expansion rank resolved against the file's own rank), the
/// same elements, edges and colours, and vertices with the same coordinates.
pub proof fn lemma_min_dimension_only_pads(c: Seq<u8>, scene: Scene, min2: usize, dimension2: usize)
    ensures
        ({
            let other = Scene { min_dimension: min2, dimension: dimension2, ..scene };
            match (load_spec(c, scene), load_spec(c, other)) {
                (Ok(m1), Ok(m2)) => {
                    &&& m1.rank == m2.rank
                    &&& m1.expansion == m2.expansion
                    &&& m1.expansion_rank == m2.expansion_rank
                    &&& m1.elements == m2.elements
                    &&& m1.edges == m2.edges
                    &&& m1.colors == m2.colors
                    &&& m1.vertices.len() == m2.vertices.len()
                    &&& forall|k: int|
                        0 <= k < m1.vertices.len() ==> (#[trigger] m1.vertices[k]).0
                            == m2.vertices[k].0
                },
                (Err(e1), Err(e2)) => e1 == e2,
                _ => false,
            }
        }),
{
    let other = Scene { min_dimension: min2, dimension: dimension2, ..scene };
    let lines = text_lines(c);
    assert(same_but_padding(initial_model(scene), initial_model(other)));
    lemma_read_lines_padding_only(
        c,
        lines,
        lines.len(),
        initial_model(scene),
        initial_model(other),
        scene.min_dimension as nat,
        min2 as nat,
    );
    match (load_spec(c, scene), load_spec(c, other)) {
        (Ok(m1), Ok(m2)) => {
            assert(OffModel { vertices: Seq::empty(), dimension: 0, ..m1 } == OffModel {
                vertices: Seq::empty(),
                dimension: 0,
                ..m2
            });
        },
        _ => {},
    }
}

/// Before the first data line, reading is still at the header or the
/// counts line and has not stopped.
proof fn lemma_before_data(
    c: Seq<u8>,
    lines: Seq<(usize, usize)>,
    n: nat,
    init: OffModel,
    min_dimension: nat,
)
    requires
        init.seen == 0,
        init.state <= 1,
        !init.done,
    ensures
        match read_lines_spec(c, lines, n, init, min_dimension) {
            Ok(st) => st.seen == 0 ==> st.state <= 1 && !st.done,
            Err(_) => true,
        },
    decreases n,
{
    if n > 0 {
        lemma_before_data(c, lines, (n - 1) as nat, init, min_dimension);
    }
}

/// Blank lines before the counts line are skipped: while no data line has
/// been read (only comments, blank lines and the header), a blank line
/// leaves the reader as it was, still expecting the counts line.
pub proof fn lemma_blank_before_counts_skipped(
    c: Seq<u8>,
    scene: Scene,
    k: nat,
    blank: (usize, usize),
)
    requires
        k <= text_lines(c).len(),
        blank.0 == blank.1,
    ensures
        match read_lines_spec(
            c,
            text_lines(c),
            k,
            initial_model(scene),
            scene.min_dimension as nat,
        ) {
            Ok(st) => st.seen == 0 ==> !st.done && read_line_spec(
                c,
                st,
                blank,
                scene.min_dimension as nat,
            ) == Ok::<OffModel, crate::loader::LoadError>(st),
            Err(_) => true,
        },
{
    lemma_before_data(c, text_lines(c), k, initial_model(scene), scene.min_dimension as nat);
}

/// The colour of the edges of a square facet of a 3-dimensional polytope:
/// blue when its centre lies on two of the axes and the polytope has fewer
/// than 30 faces, yellow otherwise.
pub open spec fn square_color(centered_on_axes: bool, face_count: usize) -> EdgeColor {
    if centered_on_axes && face_count < 30 {
        EdgeColor { r: 43, g: 38, b: 135, a: 255 }
    } else {
        EdgeColor { r: 229, g: 188, b: 38, a: 255 }
    }
}

/// How facets are coloured.  Only the facets of 3-dimensional polytopes get
/// colours; the rest are white.  The position and the face count matter to
/// squares alone: a square centred on the axes is blue exactly when the
/// polytope has fewer than 30 faces (so a cuboctahedron's axis squares are
/// blue, those of the 30-faced and larger polytopes yellow), any other
/// square yellow; the colour of other facets depends on their vertex count
/// only.
pub proof fn lemma_facet_color_rules(
    rank: usize,
    vertex_count: usize,
    centered_on_axes: bool,
    face_count: usize,
    other_centered: bool,
    other_face_count: usize,
)
    ensures
        rank != 3 ==> facet_color_spec(rank, vertex_count, centered_on_axes, face_count)
            == white_spec(),
        facet_color_spec(3, 4, centered_on_axes, face_count) == square_color(
            centered_on_axes,
            face_count,
        ),
        vertex_count != 4 ==> facet_color_spec(3, vertex_count, centered_on_axes, face_count)
            == facet_color_spec(3, vertex_count, other_centered, other_face_count),
        facet_color_spec(3, 3, centered_on_axes, face_count) != facet_color_spec(
            3,
            4,
            centered_on_axes,
            face_count,
        ),
        facet_color_spec(3, 3, centered_on_axes, face_count) != white_spec(),
{
}

/// Each facet's edges get that facet's own colour: among the colours of the
/// first `n` facets, those of facet `k` stand right after the colours of the
/// facets before it, one per edge of facet `k`, each the colour that facet
/// `k`'s vertex count and its own flag `on_axes[k]` give.
pub proof fn lemma_facet_colors_per_facet(
    facets: Seq<(Seq<usize>, nat)>,
    rank: usize,
    on_axes: Seq<bool>,
    face_count: usize,
    n: nat,
)
    requires
        n <= facets.len(),
    ensures
        facet_colors(facets, rank, on_axes, face_count, n).len() == facet_edge_total(facets, n),
        forall|k: int|
            0 <= k < n ==> #[trigger] facet_edge_total(facets, k as nat) + facets[k].1
                <= facet_edge_total(facets, n),
        forall|k: int, i: int|
            0 <= k < n && 0 <= i < facets[k].1 ==> #[trigger] facet_colors(
                facets,
                rank,
                on_axes,
                face_count,
                n,
            )[facet_edge_total(facets, k as nat) + i] == facet_color_spec(
                rank,
                facets[k].0.len() as usize,
                on_axes[k],
                face_count,
            ),
    decreases n,
{
    lemma_facet_colors_len(facets, rank, on_axes, face_count, n);
    if n > 0 {
        lemma_facet_colors_per_facet(facets, rank, on_axes, face_count, (n - 1) as nat);
        lemma_facet_colors_len(facets, rank, on_axes, face_count, (n - 1) as nat);
        let before = facet_colors(facets, rank, on_axes, face_count, (n - 1) as nat);
        let all = facet_colors(facets, rank, on_axes, face_count, n);
        assert forall|k: int| 0 <= k < n implies #[trigger] facet_edge_total(facets, k as nat)
            + facets[k].1 <= facet_edge_total(facets, n) by {
            lemma_edge_total_monotone(facets, (k + 1) as nat, n);
            assert(facet_edge_total(facets, (k + 1) as nat) == facet_edge_total(facets, k as nat)
                + facets[k].1);
        }
        assert forall|k: int, i: int| 0 <= k < n && 0 <= i < facets[k].1 implies #[trigger] facet_colors(
            facets,
            rank,
            on_axes,
            face_count,
            n,
        )[facet_edge_total(facets, k as nat) + i] == facet_color_spec(
            rank,
            facets[k].0.len() as usize,
            on_axes[k],
            face_count,
        ) by {
            assert(facet_edge_total(facets, n) == facet_edge_total(facets, (n - 1) as nat)
                + facets[n - 1].1);
            if k < n - 1 {
                lemma_edge_total_monotone(facets, (k + 1) as nat, (n - 1) as nat);
                assert(facet_edge_total(facets, (k + 1) as nat) == facet_edge_total(
                    facets,
                    k as nat,
                ) + facets[k].1);
                assert(all[facet_edge_total(facets, k as nat) + i] == before[facet_edge_total(
                    facets,
                    k as nat,
                ) + i]);
            } else {
                let f = facets[n - 1];
                let color = facet_color_spec(rank, f.0.len() as usize, on_axes[n - 1], face_count);
                let tail = Seq::new(f.1, |j: int| color);
                assert(all == before + tail);
                assert(k == n - 1);
                assert(all[before.len() + i] == tail[i]);
            }
        }
    }
}

proof fn lemma_edge_total_monotone(facets: Seq<(Seq<usize>, nat)>, j: nat, n: nat)
    requires
        j <= n,
    ensures
        facet_edge_total(facets, j) <= facet_edge_total(facets, n),
    decreases n - j,
{
    if j < n {
        lemma_edge_total_monotone(facets, j, (n - 1) as nat);
    }
}

} // verus!
