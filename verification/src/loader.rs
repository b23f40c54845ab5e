//! Reading polytopes in the (N-dimensional) OFF format.
//!
//! After comment lines (starting with `#`), a header line ends in `OFF`; what
//! precedes `OFF` is the dimension (plain `OFF` means 3).  Blank lines then
//! separate the sections: the counts line, the vertices (one line of
//! coordinates each), the faces, the cells and so on up to the facets.  Each
//! element line starts with a count that is skipped, followed by the indices
//! of the vertices (for a face) or of the elements one rank down.
use macroquad::rand::ChooseRandom;
use vstd::prelude::*;
use vstd::string::StringSliceAdditionalSpecFns;

use crate::element::{
    cycle_edges, edges_distinct, element_result, endpoints_within, get_vertices_from_element,
    lemma_element_edges_parity, lemma_element_endpoints_collected, lemma_element_vertices_distinct,
    lemma_merge_edges_distinct, lemma_merge_edges_parity, merge_edges, merge_edges_upto, table_of,
    valid_element, valid_subs,
};
use crate::scene::{
    normalize_expansion_rank, normalized_expansion_rank, white, white_spec, whites, EdgeColor,
    ExpansionSign, Scene,
};
use crate::text::{
    parse_unsigned, parse_usize_in, space_pieces, spans_within, split_lines, split_spaces,
    text_lines,
};

verus! {

/// One vertex line: the byte spans of its coordinates in the file, and how
/// many coordinates the vertex has once padded with zeros up to the minimum
/// dimension.
pub struct VertexRecord {
    pub coordinates: Vec<(usize, usize)>,
    pub length: usize,
}

impl View for VertexRecord {
    type V = (Seq<(usize, usize)>, nat);

    open spec fn view(&self) -> (Seq<(usize, usize)>, nat) {
        (self.coordinates@, self.length as nat)
    }
}

/// What a polytope file holds besides what goes into the scene.
pub struct PolytopeData {
    pub vertices: Vec<VertexRecord>,
    /// `elements[0]` holds the faces, `elements[1]` the cells, and so on.
    pub elements: Vec<Vec<Vec<usize>>>,
    pub rank: usize,
}

/// Why a polytope file could not be read.
#[derive(Clone, Copy, PartialEq, Eq, Debug, Structural)]
pub enum LoadError {
    /// The text before `OFF` in a header is not a number.
    BadDimension,
    /// A line of data comes before any header, or the header gave rank 0.
    MissingHeader,
    /// An element line holds something other than numbers separated by
    /// single spaces.
    BadIndex,
    /// A blank line would take the section count past `usize::MAX` (a
    /// polytope of that rank).
    TooManyLevels,
    /// More than `u32::MAX` lines of data.
    LineCountOverflow,
    /// The rank of the elements to expand is below 2 or above what the file
    /// holds.
    BadExpansionRank,
    /// An element refers to an element or level that does not exist.
    BadElement,
    /// The expanded vertices cannot all be numbered in a `usize`.
    TooManyVertices,
}

/// The state of the reader between two lines.
pub struct OffModel {
    /// 0 before the header, 1 at the counts line, 2 in the vertices, 3 in
    /// the faces, 4 in the cells, ...
    pub state: nat,
    pub rank: nat,
    /// Lines of data seen so far.
    pub seen: nat,
    /// Reading has stopped.
    pub done: bool,
    pub vertices: Seq<(Seq<(usize, usize)>, nat)>,
    pub elements: Seq<Seq<Seq<usize>>>,
    pub dimension: nat,
    pub expansion: ExpansionSign,
    pub expansion_rank: nat,
    pub edges: Seq<usize>,
    pub colors: Seq<EdgeColor>,
}

/// The line `c[a..b]` ends in `OFF`.
pub open spec fn ends_with_off(c: Seq<u8>, a: int, b: int) -> bool {
    b - a >= 3 && c[b - 3] == 79u8 && c[b - 2] == 70u8 && c[b - 1] == 70u8
}

/// The non-empty space-separated pieces of the line `c[a..b]`.
pub open spec fn coordinate_spans(c: Seq<u8>, a: int, b: int) -> Seq<(usize, usize)> {
    space_pieces(c, a, b).filter(|p: (usize, usize)| p.0 < p.1)
}

/// The vertex read from the line `c[a..b]`.
pub open spec fn vertex_record(c: Seq<u8>, a: int, b: int, min_dimension: nat) -> (
    Seq<(usize, usize)>,
    nat,
) {
    let coords = coordinate_spans(c, a, b);
    (
        coords,
        if coords.len() < min_dimension {
            min_dimension
        } else {
            coords.len()
        },
    )
}

/// The numbers in the first `n` of the spans `pieces` of `c`, if they all
/// parse as `usize`.
pub open spec fn parse_all(c: Seq<u8>, pieces: Seq<(usize, usize)>, n: nat) -> Option<Seq<usize>>
    decreases n,
{
    if n == 0 {
        Some(Seq::empty())
    } else {
        match parse_all(c, pieces, (n - 1) as nat) {
            None => None,
            Some(vs) => match parse_unsigned(
                c.subrange(pieces[n - 1].0 as int, pieces[n - 1].1 as int),
                usize::MAX as nat,
            ) {
                None => None,
                Some(v) => Some(vs.push(v as usize)),
            },
        }
    }
}

/// The indices listed on the element line `c[a..b]`: every space-separated
/// piece must be a number, and the first (the count) is dropped.
pub open spec fn index_list(c: Seq<u8>, a: int, b: int) -> Option<Seq<usize>> {
    let pieces = space_pieces(c, a, b);
    match parse_all(c, pieces, pieces.len()) {
        None => None,
        Some(vs) => Some(vs.drop_first()),
    }
}

/// The face `face` read with expansion off: its edges not yet present are
/// added, each in white.
pub open spec fn add_face_edges(st: OffModel, face: Seq<usize>) -> OffModel {
    let edges = merge_edges(st.edges, cycle_edges(face));
    OffModel {
        edges: edges,
        colors: st.colors + whites(((edges.len() - st.edges.len()) / 2) as nat),
        ..st
    }
}

/// Reading one line `c[line.0..line.1]` of a polytope file.
pub open spec fn read_line_spec(
    c: Seq<u8>,
    st: OffModel,
    line: (usize, usize),
    min_dimension: nat,
) -> Result<OffModel, LoadError> {
    let a = line.0 as int;
    let b = line.1 as int;
    if b > a && c[a] == 35u8 {
        Ok(st)
    } else if a == b {
        if st.state == 1 {
            if st.seen == 1 {
                Ok(OffModel { state: 2, ..st })
            } else {
                Ok(st)
            }
        } else if st.state == 2 {
            Ok(OffModel { state: 3, elements: st.elements.push(Seq::empty()), ..st })
        } else if st.state > 2 {
            if st.expansion == ExpansionSign::Zero {
                Ok(OffModel { done: true, ..st })
            } else if st.state >= usize::MAX {
                Err(LoadError::TooManyLevels)
            } else if st.state + 1 > st.rank {
                Ok(OffModel { state: st.state + 1, done: true, ..st })
            } else {
                Ok(OffModel { state: st.state + 1, elements: st.elements.push(Seq::empty()), ..st })
            }
        } else {
            Ok(st)
        }
    } else if ends_with_off(c, a, b) {
        let dim = if b - a == 3 {
            Some(3nat)
        } else {
            parse_unsigned(c.subrange(a, b - 3), usize::MAX as nat)
        };
        match dim {
            None => Err(LoadError::BadDimension),
            Some(d) => Ok(
                OffModel {
                    rank: d,
                    dimension: if d < min_dimension {
                        min_dimension
                    } else {
                        d
                    },
                    state: 1,
                    ..st
                },
            ),
        }
    } else if st.rank == 0 {
        Err(LoadError::MissingHeader)
    } else if st.seen >= u32::MAX {
        Err(LoadError::LineCountOverflow)
    } else {
        let st1 = OffModel {
            expansion_rank: normalized_expansion_rank(st.expansion_rank, st.rank),
            expansion: if st.rank == 2 && st.expansion == ExpansionSign::Positive {
                ExpansionSign::Zero
            } else {
                st.expansion
            },
            seen: st.seen + 1,
            ..st
        };
        if st.state == 2 {
            Ok(OffModel { vertices: st1.vertices.push(vertex_record(c, a, b, min_dimension)), ..st1 })
        } else if st.state >= 3 {
            match index_list(c, a, b) {
                None => Err(LoadError::BadIndex),
                Some(list) => {
                    let level = st.state - 3;
                    let st2 = OffModel {
                        elements: st1.elements.update(level, st1.elements[level].push(list)),
                        ..st1
                    };
                    if st.state == 3 && st1.expansion == ExpansionSign::Zero {
                        Ok(add_face_edges(st2, list))
                    } else {
                        Ok(st2)
                    }
                },
            }
        } else {
            Ok(st1)
        }
    }
}

/// Reading the first `n` of the lines `lines`, stopping at the first error or
/// when reading is done.
pub open spec fn read_lines_spec(
    c: Seq<u8>,
    lines: Seq<(usize, usize)>,
    n: nat,
    init: OffModel,
    min_dimension: nat,
) -> Result<OffModel, LoadError>
    decreases n,
{
    if n == 0 {
        Ok(init)
    } else {
        match read_lines_spec(c, lines, (n - 1) as nat, init, min_dimension) {
            Err(e) => Err(e),
            Ok(st) => if st.done {
                Ok(st)
            } else {
                read_line_spec(c, st, lines[n - 1], min_dimension)
            },
        }
    }
}

/// The reader's state before the first line, for a scene `scene`.
pub open spec fn initial_model(scene: Scene) -> OffModel {
    OffModel {
        state: 0,
        rank: 0,
        seen: 0,
        done: false,
        vertices: Seq::empty(),
        elements: Seq::empty(),
        dimension: scene.dimension as nat,
        expansion: scene.facet_expansion,
        expansion_rank: scene.facet_expansion_rank as nat,
        edges: scene.edges@,
        colors: scene.edge_colors@,
    }
}

/// Reading the whole file `c` into the scene `scene`.
pub open spec fn load_spec(c: Seq<u8>, scene: Scene) -> Result<OffModel, LoadError> {
    let lines = text_lines(c);
    read_lines_spec(c, lines, lines.len(), initial_model(scene), scene.min_dimension as nat)
}

struct OffReader {
    state: usize,
    rank: usize,
    seen: u32,
    done: bool,
    vertices: Vec<VertexRecord>,
    elements: Vec<Vec<Vec<usize>>>,
    dimension: usize,
    expansion: ExpansionSign,
    expansion_rank: usize,
    edges: Vec<usize>,
    colors: Vec<EdgeColor>,
}

impl OffReader {
    spec fn model(&self) -> OffModel {
        OffModel {
            state: self.state as nat,
            rank: self.rank as nat,
            seen: self.seen as nat,
            done: self.done,
            vertices: self.vertices@.map_values(|r: VertexRecord| r@),
            elements: table_of(&self.elements),
            dimension: self.dimension as nat,
            expansion: self.expansion,
            expansion_rank: self.expansion_rank as nat,
            edges: self.edges@,
            colors: self.colors@,
        }
    }

    spec fn inv(&self) -> bool {
        &&& self.edges@.len() % 2 == 0
        &&& (!self.done && self.state >= 3) ==> self.elements@.len() >= self.state - 2
    }

    /// Adds the edges of `face` not yet present, each in white.
    fn add_face_edges(&mut self, face: &Vec<usize>)
        requires
            old(self).edges@.len() % 2 == 0,
        ensures
            final(self).model() == add_face_edges(old(self).model(), face@),
            final(self).edges@.len() % 2 == 0,
            final(self).state == old(self).state,
            final(self).elements@.len() == old(self).elements@.len(),
    {
        let ghost e0 = self.edges@;
        let ghost c0 = self.colors@;
        let ghost cyc = cycle_edges(face@);
        let n = face.len();
        let mut i: usize = 0;
        while i < n
            invariant
                n == face@.len(),
                i <= n,
                cyc == cycle_edges(face@),
                self.edges@ == merge_edges_upto(e0, cyc, i as nat),
                self.edges@.len() % 2 == 0,
                self.edges@.len() >= e0.len(),
                self.colors@ == c0 + whites(((self.edges@.len() - e0.len()) / 2) as nat),
                self.state == old(self).state,
                self.rank == old(self).rank,
                self.seen == old(self).seen,
                self.done == old(self).done,
                self.vertices@ == old(self).vertices@,
                self.elements@ == old(self).elements@,
                self.dimension == old(self).dimension,
                self.expansion == old(self).expansion,
                self.expansion_rank == old(self).expansion_rank,
            decreases n - i,
        {
            let a = face[i];
            let b = face[(i + 1) % n];
            assert(cyc[2 * (i + 1) - 2] == a);
            assert(cyc[2 * (i + 1) - 1] == b);
            if !crate::element::contains_edge(&self.edges, a, b) {
                self.edges.push(a);
                self.edges.push(b);
                self.colors.push(white());
                assert(self.colors@ =~= c0 + whites(((self.edges@.len() - e0.len()) / 2) as nat));
            }
            i = i + 1;
        }
        assert(cyc.len() / 2 == n);
    }

    /// Reads one line, `text[line.0..line.1]`.
    fn read_line(&mut self, text: &[u8], line: (usize, usize), min_dimension: usize) -> (r: Result<
        (),
        LoadError,
    >)
        requires
            old(self).inv(),
            !old(self).done,
            line.0 <= line.1 <= text@.len(),
        ensures
            match r {
                Ok(()) => read_line_spec(text@, old(self).model(), line, min_dimension as nat) == Ok::<
                    OffModel,
                    LoadError,
                >(final(self).model()) && final(self).inv(),
                Err(e) => read_line_spec(text@, old(self).model(), line, min_dimension as nat)
                    == Err::<OffModel, LoadError>(e),
            },
    {
        let a = line.0;
        let b = line.1;
        if b > a && text[a] == 35u8 {
            return Ok(());
        }
        if a == b {
            if self.state == 1 {
                if self.seen == 1 {
                    self.state = 2;
                }
            } else if self.state == 2 {
                self.state = 3;
                self.elements.push(Vec::new());
                assert(table_of(&self.elements) =~~= old(self).model().elements.push(Seq::empty()));
            } else if self.state > 2 {
                match self.expansion {
                    ExpansionSign::Zero => {
                        self.done = true;
                    },
                    _ => {
                        if self.state == usize::MAX {
                            return Err(LoadError::TooManyLevels);
                        }
                        self.state = self.state + 1;
                        if self.state > self.rank {
                            self.done = true;
                        } else {
                            self.elements.push(Vec::new());
                            assert(table_of(&self.elements) =~~= old(self).model().elements.push(
                                Seq::empty(),
                            ));
                        }
                    },
                }
            }
            return Ok(());
        }
        if b - a >= 3 && text[b - 3] == 79u8 && text[b - 2] == 70u8 && text[b - 1] == 70u8 {
            let dim = if b - a == 3 {
                3
            } else {
                match parse_usize_in(text, a, b - 3) {
                    Some(d) => d,
                    None => {
                        return Err(LoadError::BadDimension);
                    },
                }
            };
            self.rank = dim;
            self.dimension = if dim < min_dimension {
                min_dimension
            } else {
                dim
            };
            self.state = 1;
            return Ok(());
        }
        if self.rank == 0 {
            return Err(LoadError::MissingHeader);
        }
        if self.seen == u32::MAX {
            return Err(LoadError::LineCountOverflow);
        }
        self.expansion_rank = normalize_expansion_rank(self.expansion_rank, self.rank);
        if self.rank == 2 {
            match self.expansion {
                ExpansionSign::Positive => {
                    self.expansion = ExpansionSign::Zero;
                },
                _ => {},
            }
        }
        self.seen = self.seen + 1;
        let ghost st1 = self.model();
        if self.state == 2 {
            let record = read_vertex(text, a, b, min_dimension);
            self.vertices.push(record);
            assert(self.model().vertices =~= st1.vertices.push(
                vertex_record(text@, a as int, b as int, min_dimension as nat),
            ));
        } else if self.state >= 3 {
            let list = match parse_index_list(text, a, b) {
                Some(list) => list,
                None => {
                    return Err(LoadError::BadIndex);
                },
            };
            let level = self.state - 3;
            let ghost list_view = list@;
            if self.state == 3 {
                match self.expansion {
                    ExpansionSign::Zero => {
                        self.add_face_edges(&list);
                    },
                    _ => {},
                }
            }
            let ghost before = table_of(&self.elements);
            self.elements[level].push(list);
            assert(table_of(&self.elements) =~~= before.update(
                level as int,
                before[level as int].push(list_view),
            ));
        }
        Ok(())
    }
}

/// Reads the vertex line `text[a..b]`.
fn read_vertex(text: &[u8], a: usize, b: usize, min_dimension: usize) -> (r: VertexRecord)
    requires
        a <= b <= text@.len(),
    ensures
        r@ == vertex_record(text@, a as int, b as int, min_dimension as nat),
{
    let pieces = split_spaces(text, a, b);
    let ghost pred = |p: (usize, usize)| p.0 < p.1;
    let mut coordinates: Vec<(usize, usize)> = Vec::new();
    let mut k: usize = 0;
    while k < pieces.len()
        invariant
            k <= pieces@.len(),
            pieces@ == space_pieces(text@, a as int, b as int),
            pred == (|p: (usize, usize)| p.0 < p.1),
            coordinates@ == pieces@.take(k as int).filter(pred),
        decreases pieces@.len() - k,
    {
        let p = pieces[k];
        proof {
            assert(pieces@.take(k + 1).drop_last() =~= pieces@.take(k as int));
            reveal_with_fuel(Seq::filter, 1);
        }
        if p.0 < p.1 {
            coordinates.push(p);
        }
        k = k + 1;
    }
    assert(pieces@.take(pieces@.len() as int) =~= pieces@);
    let length = if coordinates.len() < min_dimension {
        min_dimension
    } else {
        coordinates.len()
    };
    VertexRecord { coordinates, length }
}

/// Reads the element line `text[a..b]` (see `index_list`).
fn parse_index_list(text: &[u8], a: usize, b: usize) -> (r: Option<Vec<usize>>)
    requires
        a <= b <= text@.len(),
    ensures
        match r {
            Some(v) => index_list(text@, a as int, b as int) == Some(v@),
            None => index_list(text@, a as int, b as int) is None,
        },
{
    let pieces = split_spaces(text, a, b);
    let ghost c = text@;
    let mut values: Vec<usize> = Vec::new();
    let mut k: usize = 0;
    while k < pieces.len()
        invariant
            k <= pieces@.len(),
            pieces@ == space_pieces(c, a as int, b as int),
            c == text@,
            spans_within(pieces@, c.len() as int),
            parse_all(c, pieces@, k as nat) is Some,
            values@ == if k == 0 {
                Seq::<usize>::empty()
            } else {
                parse_all(c, pieces@, k as nat).unwrap().drop_first()
            },
            k >= 1 ==> parse_all(c, pieces@, k as nat).unwrap().len() == k,
        decreases pieces@.len() - k,
    {
        let p = pieces[k];
        assert(p.0 <= p.1 <= c.len());
        match parse_usize_in(text, p.0, p.1) {
            None => {
                proof {
                    assert(parse_all(c, pieces@, (k + 1) as nat) is None);
                    lemma_parse_all_none(c, pieces@, (k + 1) as nat, pieces@.len());
                }
                return None;
            },
            Some(v) => {
                if k != 0 {
                    values.push(v);
                }
                proof {
                    let prev = parse_all(c, pieces@, k as nat).unwrap();
                    assert(parse_all(c, pieces@, (k + 1) as nat) == Some(prev.push(v)));
                    if k == 0 {
                        assert(prev.push(v).drop_first() =~= Seq::<usize>::empty());
                    } else {
                        assert(prev.push(v).drop_first() =~= prev.drop_first().push(v));
                    }
                }
            },
        }
        k = k + 1;
    }
    Some(values)
}

/// Once some line fails to parse, so does every longer prefix.
pub(crate) proof fn lemma_parse_all_none(c: Seq<u8>, pieces: Seq<(usize, usize)>, k: nat, n: nat)
    requires
        k <= n,
        parse_all(c, pieces, k) is None,
    ensures
        parse_all(c, pieces, n) is None,
    decreases n - k,
{
    if k < n {
        lemma_parse_all_none(c, pieces, k + 1, n);
    }
}

/// Once reading has failed or stopped, later lines change nothing.
pub(crate) proof fn lemma_read_lines_settled(
    c: Seq<u8>,
    lines: Seq<(usize, usize)>,
    k: nat,
    n: nat,
    init: OffModel,
    min_dimension: nat,
)
    requires
        k <= n,
        match read_lines_spec(c, lines, k, init, min_dimension) {
            Err(_) => true,
            Ok(st) => st.done,
        },
    ensures
        read_lines_spec(c, lines, n, init, min_dimension) == read_lines_spec(
            c,
            lines,
            k,
            init,
            min_dimension,
        ),
    decreases n - k,
{
    if k < n {
        lemma_read_lines_settled(c, lines, k, (n - 1) as nat, init, min_dimension);
    }
}

/// The scene after a successful read ends in state `m`: the fields that the
/// reader works on come from `m`, the others are kept.
pub open spec fn scene_after(old_scene: Scene, new_scene: Scene, m: OffModel) -> bool {
    &&& new_scene.dimension as nat == m.dimension
    &&& new_scene.facet_expansion == m.expansion
    &&& new_scene.facet_expansion_rank as nat == m.expansion_rank
    &&& new_scene.edges@ == m.edges
    &&& new_scene.edge_colors@ == m.colors
    &&& new_scene.resolution == old_scene.resolution
    &&& new_scene.frame_count == old_scene.frame_count
    &&& new_scene.min_dimension == old_scene.min_dimension
}

/// The polytope data returned from a read that ended in state `m`.
pub open spec fn data_after(data: PolytopeData, m: OffModel) -> bool {
    &&& data.vertices@.map_values(|r: VertexRecord| r@) == m.vertices
    &&& table_of(&data.elements) == m.elements
    &&& data.rank as nat == m.rank
}

/// Reads the polytope file `contents` (see `load_spec`): the vertices and the
/// element table are returned, while the dimension, the facet expansion
/// settings and (when expansion is off) the white edges of the faces go into
/// the scene.  On an error the scene is left as it was.
pub fn load_polytope_data(scene: &mut Scene, contents: &str) -> (r: Result<PolytopeData, LoadError>)
    requires
        old(scene).edges@.len() % 2 == 0,
    ensures
        match r {
            Ok(data) => match load_spec(contents.spec_bytes(), *old(scene)) {
                Ok(m) => scene_after(*old(scene), *final(scene), m) && data_after(data, m),
                Err(_) => false,
            },
            Err(e) => load_spec(contents.spec_bytes(), *old(scene)) == Err::<OffModel, LoadError>(e)
                && *final(scene) == *old(scene),
        },
{
    let text = contents.as_bytes();
    let lines = split_lines(text);
    let ghost c = text@;
    let ghost init = initial_model(*scene);
    let min_dimension = scene.min_dimension;
    let edges = scene.edges.clone();
    let colors = scene.edge_colors.clone();
    assert(edges@ =~= scene.edges@);
    assert(colors@ =~= scene.edge_colors@);
    let mut reader = OffReader {
        state: 0,
        rank: 0,
        seen: 0,
        done: false,
        vertices: Vec::new(),
        elements: Vec::new(),
        dimension: scene.dimension,
        expansion: scene.facet_expansion,
        expansion_rank: scene.facet_expansion_rank,
        edges,
        colors,
    };
    assert(reader.model().vertices =~= init.vertices);
    assert(reader.model().elements =~= init.elements);
    assert(reader.model() == init);
    let mut i: usize = 0;
    while i < lines.len() && !reader.done
        invariant
            i <= lines@.len(),
            lines@ == text_lines(c),
            c == text@,
            c == contents.spec_bytes(),
            spans_within(lines@, c.len() as int),
            reader.inv(),
            read_lines_spec(c, lines@, i as nat, init, min_dimension as nat) == Ok::<
                OffModel,
                LoadError,
            >(reader.model()),
            *scene == *old(scene),
            scene.min_dimension == min_dimension,
            init == initial_model(*old(scene)),
        decreases lines@.len() - i,
    {
        let line = lines[i];
        assert(line.0 <= line.1 <= c.len());
        let ghost before = reader.model();
        match reader.read_line(text, line, min_dimension) {
            Ok(()) => {},
            Err(e) => {
                proof {
                    assert(read_lines_spec(c, lines@, (i + 1) as nat, init, min_dimension as nat) == Err::<OffModel, LoadError>(e));
                    lemma_read_lines_settled(
                        c,
                        lines@,
                        (i + 1) as nat,
                        lines@.len(),
                        init,
                        min_dimension as nat,
                    );
                }
                return Err(e);
            },
        }
        i = i + 1;
    }
    proof {
        if i < lines@.len() {
            lemma_read_lines_settled(c, lines@, i as nat, lines@.len(), init, min_dimension as nat);
        }
    }
    scene.dimension = reader.dimension;
    scene.facet_expansion = reader.expansion;
    scene.facet_expansion_rank = reader.expansion_rank;
    scene.edges = reader.edges;
    scene.edge_colors = reader.colors;
    Ok(PolytopeData { vertices: reader.vertices, elements: reader.elements, rank: reader.rank })
}

/// Where `x` first occurs in `s`.
pub open spec fn position_of(s: Seq<usize>, x: usize) -> int {
    choose|i: int| 0 <= i < s.len() && s[i] == x && (forall|j: int| 0 <= j < i ==> s[j] != x)
}

proof fn lemma_first_at_most(s: Seq<usize>, x: usize, i: int)
    requires
        0 <= i < s.len(),
        s[i] == x,
    ensures
        exists|k: int|
            0 <= k <= i && s[k] == x && (forall|j: int| 0 <= j < k ==> s[j] != x),
    decreases i,
{
    if exists|j: int| 0 <= j < i && s[j] == x {
        let j = choose|j: int| 0 <= j < i && s[j] == x;
        lemma_first_at_most(s, x, j);
    } else {
        assert(0 <= i <= i && s[i] == x && (forall|j: int| 0 <= j < i ==> s[j] != x));
    }
}

/// A vertex that occurs has a first position.
proof fn lemma_position_of(s: Seq<usize>, x: usize)
    requires
        s.contains(x),
    ensures
        0 <= position_of(s, x) < s.len(),
        s[position_of(s, x)] == x,
{
    let i = choose|i: int| 0 <= i < s.len() && s[i] == x;
    lemma_first_at_most(s, x, i);
}

/// The edge list `edges` with each vertex replaced by its number among the
/// expanded vertices: `base` plus its first position in `vertices`.
pub open spec fn renumber(edges: Seq<usize>, vertices: Seq<usize>, base: int) -> Seq<usize> {
    Seq::new(edges.len(), |j: int| (base + position_of(vertices, edges[j])) as usize)
}

/// A facet as expanded: its vertices (indices into the polytope's vertices)
/// and how many edges it contributes.
pub struct Facet {
    pub vertices: Vec<usize>,
    pub edge_count: usize,
}

impl View for Facet {
    type V = (Seq<usize>, nat);

    open spec fn view(&self) -> (Seq<usize>, nat) {
        (self.vertices@, self.edge_count as nat)
    }
}

/// Expanding the first `n` elements of rank `rank`, numbering new vertices
/// from `base`: the edges to add, the facets, and the next free vertex number.
pub open spec fn expand_upto(data: Seq<Seq<Seq<usize>>>, rank: nat, base: nat, n: nat) -> Result<
    (Seq<usize>, Seq<(Seq<usize>, nat)>, nat),
    LoadError,
>
    decreases n,
{
    if n == 0 {
        Ok((Seq::empty(), Seq::empty(), base))
    } else {
        match expand_upto(data, rank, base, (n - 1) as nat) {
            Err(e) => Err(e),
            Ok((edges, facets, next)) => if !valid_element(data, rank, n - 1) {
                Err(LoadError::BadElement)
            } else {
                let collected = element_result(data, rank, n - 1, Seq::empty(), Seq::empty());
                let fv = collected.0;
                let fe = collected.1;
                if next + fv.len() > usize::MAX {
                    Err(LoadError::TooManyVertices)
                } else {
                    Ok(
                        (
                            edges + renumber(fe, fv, next as int),
                            facets.push((fv, fe.len() / 2)),
                            next + fv.len(),
                        ),
                    )
                }
            },
        }
    }
}

/// Expanding every element of rank `rank`.
pub open spec fn expand_spec(data: Seq<Seq<Seq<usize>>>, rank: nat, base: nat) -> Result<
    (Seq<usize>, Seq<(Seq<usize>, nat)>, nat),
    LoadError,
> {
    if rank < 2 || rank - 2 >= data.len() {
        Err(LoadError::BadExpansionRank)
    } else {
        expand_upto(data, rank, base, data[rank - 2].len())
    }
}

proof fn lemma_valid_subs_prefix(data: Seq<Seq<Seq<usize>>>, rank: nat, element: Seq<usize>, k: nat, n: nat)
    requires
        k <= n,
        valid_subs(data, rank, element, n),
    ensures
        valid_subs(data, rank, element, k),
    decreases n - k,
{
    if k < n {
        lemma_valid_subs_prefix(data, rank, element, k, (n - 1) as nat);
    }
}

/// Whether every index below element `index` of rank `rank` is in range.
pub fn element_is_valid(polytope_data: &Vec<Vec<Vec<usize>>>, rank: usize, index: usize) -> (b: bool)
    ensures
        b == valid_element(table_of(polytope_data), rank as nat, index as int),
    decreases rank,
{
    let ghost data = table_of(polytope_data);
    if rank < 2 || rank - 2 >= polytope_data.len() || index >= polytope_data[rank - 2].len() {
        return false;
    }
    if rank == 2 {
        return true;
    }
    let element = &polytope_data[rank - 2][index];
    assert(element@ == data[rank - 2][index as int]);
    let n = element.len();
    let mut k: usize = 0;
    while k < n
        invariant
            2 < rank,
            n == element@.len(),
            element@ == data[rank - 2][index as int],
            data == table_of(polytope_data),
            k <= n,
            valid_subs(data, rank as nat, element@, k as nat),
        decreases n - k,
    {
        if !element_is_valid(polytope_data, rank - 1, element[k]) {
            proof {
                assert(!valid_subs(data, rank as nat, element@, (k + 1) as nat));
                if valid_subs(data, rank as nat, element@, n as nat) {
                    lemma_valid_subs_prefix(data, rank as nat, element@, (k + 1) as nat, n as nat);
                }
            }
            return false;
        }
        k = k + 1;
    }
    true
}

/// The first position of `x` in `s`, which holds it.
fn find_position(s: &Vec<usize>, x: usize) -> (i: usize)
    requires
        s@.contains(x),
    ensures
        i == position_of(s@, x),
        i < s@.len(),
{
    let mut i: usize = 0;
    while i < s.len()
        invariant
            i <= s@.len(),
            s@.contains(x),
            forall|j: int| 0 <= j < i ==> s@[j] != x,
        decreases s@.len() - i,
    {
        if s[i] == x {
            proof {
                let p = position_of(s@, x);
                assert(0 <= i < s@.len() && s@[i as int] == x && (forall|j: int|
                    0 <= j < i ==> s@[j] != x));
                assert(0 <= p < s@.len() && s@[p] == x && (forall|j: int| 0 <= j < p ==> s@[j] != x));
                if p < i {
                    assert(s@[p] != x);
                } else if p > i {
                    assert(s@[i as int] != x);
                }
            }
            return i;
        }
        i = i + 1;
    }
    proof {
        let j = choose|j: int| 0 <= j < s@.len() && s@[j] == x;
        assert(s@[j] != x);
    }
    0
}

/// Appends `edges`, renumbered against `vertices` from `base` (see
/// `renumber`), to `out`.
fn append_renumbered(out: &mut Vec<usize>, edges: &Vec<usize>, vertices: &Vec<usize>, base: usize)
    requires
        endpoints_within(edges@, vertices@),
        base + vertices@.len() <= usize::MAX,
    ensures
        final(out)@ == old(out)@ + renumber(edges@, vertices@, base as int),
{
    let ghost target = renumber(edges@, vertices@, base as int);
    let mut j: usize = 0;
    while j < edges.len()
        invariant
            j <= edges@.len(),
            endpoints_within(edges@, vertices@),
            base + vertices@.len() <= usize::MAX,
            target == renumber(edges@, vertices@, base as int),
            out@ == old(out)@ + target.take(j as int),
        decreases edges@.len() - j,
    {
        let x = edges[j];
        assert(edges@.contains(x));
        let p = find_position(vertices, x);
        out.push(base + p);
        assert(target.take(j + 1) =~= target.take(j as int).push((base + p) as usize));
        j = j + 1;
    }
    assert(target.take(edges@.len() as int) =~= target);
}

/// Expands the elements of rank `scene.facet_expansion_rank` (see
/// `expand_spec`): each is collected into its own vertices and edges, its
/// vertices are numbered from the next free number (starting at
/// `vertex_count`), and its edges, so renumbered, are added to the scene.
/// The facets are returned in order.  On an error the scene is left as it
/// was.
pub fn expand_facets(scene: &mut Scene, polytope_data: &Vec<Vec<Vec<usize>>>, vertex_count: usize) -> (r:
    Result<Vec<Facet>, LoadError>)
    ensures
        match expand_spec(
            table_of(polytope_data),
            old(scene).facet_expansion_rank as nat,
            vertex_count as nat,
        ) {
            Ok((edges, facets, _)) => match r {
                Ok(v) => v@.map_values(|f: Facet| f@) == facets && final(scene).edges@ == old(
                    scene,
                ).edges@ + edges && final(scene).edge_colors@ == old(scene).edge_colors@
                    && final(scene).dimension == old(scene).dimension && final(scene).facet_expansion
                    == old(scene).facet_expansion && final(scene).facet_expansion_rank == old(
                    scene,
                ).facet_expansion_rank && final(scene).min_dimension == old(scene).min_dimension
                    && final(scene).resolution == old(scene).resolution && final(scene).frame_count
                    == old(scene).frame_count,
                Err(_) => false,
            },
            Err(e) => r == Err::<Vec<Facet>, LoadError>(e) && *final(scene) == *old(scene),
        },
{
    let ghost data = table_of(polytope_data);
    let rank = scene.facet_expansion_rank;
    if rank < 2 || rank - 2 >= polytope_data.len() {
        return Err(LoadError::BadExpansionRank);
    }
    let count = polytope_data[rank - 2].len();
    let mut facets: Vec<Facet> = Vec::new();
    let mut new_edges: Vec<usize> = Vec::new();
    let mut next = vertex_count;
    let mut f: usize = 0;
    assert(facets@.map_values(|x: Facet| x@) =~= Seq::<(Seq<usize>, nat)>::empty());
    while f < count
        invariant
            2 <= rank,
            rank - 2 < polytope_data@.len(),
            rank == scene.facet_expansion_rank,
            count == data[rank - 2].len(),
            data == table_of(polytope_data),
            f <= count,
            expand_upto(data, rank as nat, vertex_count as nat, f as nat) == Ok::<
                (Seq<usize>, Seq<(Seq<usize>, nat)>, nat),
                LoadError,
            >((new_edges@, facets@.map_values(|x: Facet| x@), next as nat)),
            *scene == *old(scene),
        decreases count - f,
    {
        if !element_is_valid(polytope_data, rank, f) {
            proof {
                lemma_expand_settled(data, rank as nat, vertex_count as nat, (f + 1) as nat, count as nat);
            }
            return Err(LoadError::BadElement);
        }
        let mut vertices: Vec<usize> = Vec::new();
        let mut edges: Vec<usize> = Vec::new();
        get_vertices_from_element(polytope_data, &mut vertices, &mut edges, rank, f);
        proof {
            lemma_element_endpoints_collected(data, rank as nat, f as int, Seq::empty(), Seq::empty());
            lemma_element_edges_parity(data, rank as nat, f as int, Seq::empty(), Seq::empty());
        }
        if next > usize::MAX - vertices.len() {
            proof {
                lemma_expand_settled(data, rank as nat, vertex_count as nat, (f + 1) as nat, count as nat);
            }
            return Err(LoadError::TooManyVertices);
        }
        append_renumbered(&mut new_edges, &edges, &vertices, next);
        let vertex_total = vertices.len();
        let edge_count = edges.len() / 2;
        let ghost facets_before = facets@.map_values(|x: Facet| x@);
        let ghost fv = vertices@;
        facets.push(Facet { vertices, edge_count });
        assert(facets@.map_values(|x: Facet| x@) =~= facets_before.push((fv, edge_count as nat)));
        next = next + vertex_total;
        f = f + 1;
    }
    let mut added = new_edges;
    scene.edges.append(&mut added);
    Ok(facets)
}

proof fn lemma_expand_settled(data: Seq<Seq<Seq<usize>>>, rank: nat, base: nat, k: nat, n: nat)
    requires
        k <= n,
        expand_upto(data, rank, base, k) is Err,
    ensures
        expand_upto(data, rank, base, n) == expand_upto(data, rank, base, k),
    decreases n - k,
{
    if k < n {
        lemma_expand_settled(data, rank, base, k, (n - 1) as nat);
    }
}

/// Every renumbered edge of an expansion refers to one of the vertices the
/// expansion adds: its number lies between the first free number `base` and
/// the next free number after the expansion.
#[verifier::spinoff_prover]
#[verifier::rlimit(40)]
pub proof fn lemma_expanded_edges_in_range(data: Seq<Seq<Seq<usize>>>, rank: nat, base: nat, n: nat)
    ensures
        match expand_upto(data, rank, base, n) {
            Ok((edges, facets, next)) => base <= next && forall|j: int|
                0 <= j < edges.len() ==> base <= #[trigger] edges[j] < next,
            Err(_) => true,
        },
    decreases n,
{
    if n > 0 {
        lemma_expanded_edges_in_range(data, rank, base, (n - 1) as nat);
        match expand_upto(data, rank, base, (n - 1) as nat) {
            Err(_) => {},
            Ok((edges, facets, next)) => {
                if valid_element(data, rank, n - 1) {
                    let collected = element_result(data, rank, n - 1, Seq::empty(), Seq::empty());
                    let fv = collected.0;
                    let fe = collected.1;
                    if next + fv.len() <= usize::MAX {
                        lemma_element_endpoints_collected(
                            data,
                            rank,
                            n - 1,
                            Seq::empty(),
                            Seq::empty(),
                        );
                        let all = edges + renumber(fe, fv, next as int);
                        assert forall|j: int| 0 <= j < all.len() implies base <= #[trigger] all[j]
                            < next + fv.len() by {
                            if j >= edges.len() {
                                let x = fe[j - edges.len()];
                                assert(fe.contains(x));
                                lemma_position_of(fv, x);
                            }
                        }
                    }
                }
            },
        }
    }
}

/// Above the faces, every expanded facet lists each of its vertices once,
/// and the numbers handed out add up: the next free number is the first one
/// plus the facets' vertex counts.
pub proof fn lemma_expanded_facets_distinct(data: Seq<Seq<Seq<usize>>>, rank: nat, base: nat, n: nat)
    requires
        rank > 2,
    ensures
        match expand_upto(data, rank, base, n) {
            Ok((edges, facets, next)) => facets.len() == n && (forall|k: int|
                0 <= k < facets.len() ==> (#[trigger] facets[k]).0.no_duplicates()) && next == base
                + facet_vertex_total(facets, facets.len()),
            Err(_) => true,
        },
    decreases n,
{
    if n > 0 {
        lemma_expanded_facets_distinct(data, rank, base, (n - 1) as nat);
        match expand_upto(data, rank, base, (n - 1) as nat) {
            Err(_) => {},
            Ok((edges, facets, next)) => {
                if valid_element(data, rank, n - 1) {
                    lemma_element_vertices_distinct(
                        data,
                        rank,
                        n - 1,
                        Seq::empty(),
                        Seq::empty(),
                    );
                    let collected = element_result(data, rank, n - 1, Seq::empty(), Seq::empty());
                    let fs = facets.push((collected.0, collected.1.len() / 2));
                    assert(fs.take(facets.len() as int) =~= facets);
                    lemma_vertex_total_prefix(fs, facets.len() as nat);
                }
            },
        }
    }
}

/// The vertex counts of the first `n` facets, added up.
pub open spec fn facet_vertex_total(facets: Seq<(Seq<usize>, nat)>, n: nat) -> nat
    decreases n,
{
    if n == 0 {
        0
    } else {
        facet_vertex_total(facets, (n - 1) as nat) + facets[n - 1].0.len()
    }
}

proof fn lemma_vertex_total_prefix(facets: Seq<(Seq<usize>, nat)>, n: nat)
    requires
        n <= facets.len(),
    ensures
        facet_vertex_total(facets, n) == facet_vertex_total(facets.take(n as int), n),
    decreases n,
{
    if n > 0 {
        lemma_vertex_total_prefix(facets, (n - 1) as nat);
        lemma_vertex_total_prefix(facets.take(n as int), (n - 1) as nat);
        assert(facets.take(n as int).take(n - 1) =~= facets.take(n - 1));
    }
}

pub open spec fn facet_color_spec(
    rank: usize,
    vertex_count: usize,
    centered_on_axes: bool,
    face_count: usize,
) -> EdgeColor {
    if rank != 3 {
        white_spec()
    } else if vertex_count == 3 {
        EdgeColor { r: 213, g: 56, b: 56, a: 255 }
    } else if vertex_count == 6 {
        EdgeColor { r: 208, g: 100, b: 100, a: 255 }
    } else if vertex_count == 4 {
        if centered_on_axes && face_count < 30 {
            EdgeColor { r: 43, g: 38, b: 135, a: 255 }
        } else {
            EdgeColor { r: 229, g: 188, b: 38, a: 255 }
        }
    } else if vertex_count == 8 {
        EdgeColor { r: 87, g: 83, b: 153, a: 255 }
    } else if vertex_count == 5 {
        EdgeColor { r: 139, g: 58, b: 177, a: 255 }
    } else if vertex_count == 10 {
        EdgeColor { r: 147, g: 98, b: 170, a: 255 }
    } else {
        EdgeColor { r: 255, g: 0, b: 255, a: 255 }
    }
}

/// The colour of the edges of an expanded facet.  Only the facets of
/// 3-dimensional polytopes are coloured, by their number of vertices:
/// triangles red, hexagons light red, pentagons purple, octagons light blue,
/// decagons light purple, anything else magenta.  A square is blue when its
/// centre lies on two of the three axes (`centered_on_axes`) and the polytope
/// has fewer than 30 faces (`face_count`), otherwise yellow.
pub fn facet_edge_color(rank: usize, vertex_count: usize, centered_on_axes: bool, face_count: usize) -> (c:
    EdgeColor)
    ensures
        c == facet_color_spec(rank, vertex_count, centered_on_axes, face_count),
{
    if rank != 3 {
        white()
    } else if vertex_count == 3 {
        EdgeColor { r: 213, g: 56, b: 56, a: 255 }
    } else if vertex_count == 6 {
        EdgeColor { r: 208, g: 100, b: 100, a: 255 }
    } else if vertex_count == 4 {
        if centered_on_axes && face_count < 30 {
            EdgeColor { r: 43, g: 38, b: 135, a: 255 }
        } else {
            EdgeColor { r: 229, g: 188, b: 38, a: 255 }
        }
    } else if vertex_count == 8 {
        EdgeColor { r: 87, g: 83, b: 153, a: 255 }
    } else if vertex_count == 5 {
        EdgeColor { r: 139, g: 58, b: 177, a: 255 }
    } else if vertex_count == 10 {
        EdgeColor { r: 147, g: 98, b: 170, a: 255 }
    } else {
        EdgeColor { r: 255, g: 0, b: 255, a: 255 }
    }
}

/// Appends `count` copies of `color` to the scene's edge colours.
pub fn push_edge_colors(scene: &mut Scene, color: EdgeColor, count: usize)
    ensures
        final(scene).edge_colors@ == old(scene).edge_colors@ + Seq::new(count as nat, |i: int| color),
        final(scene).edges@ == old(scene).edges@,
        final(scene).dimension == old(scene).dimension,
        final(scene).facet_expansion == old(scene).facet_expansion,
        final(scene).facet_expansion_rank == old(scene).facet_expansion_rank,
        final(scene).min_dimension == old(scene).min_dimension,
        final(scene).resolution == old(scene).resolution,
        final(scene).frame_count == old(scene).frame_count,
{
    let mut k: usize = 0;
    while k < count
        invariant
            k <= count,
            scene.edge_colors@ == old(scene).edge_colors@ + Seq::new(k as nat, |i: int| color),
            scene.edges@ == old(scene).edges@,
            scene.dimension == old(scene).dimension,
            scene.facet_expansion == old(scene).facet_expansion,
            scene.facet_expansion_rank == old(scene).facet_expansion_rank,
            scene.min_dimension == old(scene).min_dimension,
            scene.resolution == old(scene).resolution,
            scene.frame_count == old(scene).frame_count,
        decreases count - k,
    {
        scene.edge_colors.push(color);
        assert(scene.edge_colors@ =~= old(scene).edge_colors@ + Seq::new((k + 1) as nat, |i: int| color));
        k = k + 1;
    }
}

/// The edges that the first `n` facets contribute, added up.
pub open spec fn facet_edge_total(facets: Seq<(Seq<usize>, nat)>, n: nat) -> nat
    decreases n,
{
    if n == 0 {
        0
    } else {
        facet_edge_total(facets, (n - 1) as nat) + facets[n - 1].1
    }
}

/// The colours of the edges of the first `n` facets, in order: each facet's
/// colour (see `facet_color_spec`) once per edge it contributes.  `rank` is
/// the polytope's rank, `on_axes[k]` whether the centre of facet `k` lies on
/// two of the axes, and `face_count` the polytope's number of faces.
pub open spec fn facet_colors(
    facets: Seq<(Seq<usize>, nat)>,
    rank: usize,
    on_axes: Seq<bool>,
    face_count: usize,
    n: nat,
) -> Seq<EdgeColor>
    decreases n,
{
    if n == 0 {
        Seq::empty()
    } else {
        let f = facets[n - 1];
        let color = facet_color_spec(rank, f.0.len() as usize, on_axes[n - 1], face_count);
        facet_colors(facets, rank, on_axes, face_count, (n - 1) as nat) + Seq::new(
            f.1,
            |i: int| color,
        )
    }
}

/// The facet colours of the first `n` facets number the edges they
/// contribute.
pub proof fn lemma_facet_colors_len(
    facets: Seq<(Seq<usize>, nat)>,
    rank: usize,
    on_axes: Seq<bool>,
    face_count: usize,
    n: nat,
)
    ensures
        facet_colors(facets, rank, on_axes, face_count, n).len() == facet_edge_total(facets, n),
    decreases n,
{
    if n > 0 {
        lemma_facet_colors_len(facets, rank, on_axes, face_count, (n - 1) as nat);
    }
}

/// Colours the edges of the expanded facets `facets`, in order: for each
/// facet, its colour (see `facet_edge_color`) once per edge it contributes.
/// `rank` is the polytope's rank, `centered_on_axes[k]` whether the centre of
/// facet `k` lies on two of the axes, `face_count` the number of faces.
pub fn color_facets(
    scene: &mut Scene,
    facets: &Vec<Facet>,
    rank: usize,
    centered_on_axes: &Vec<bool>,
    face_count: usize,
)
    requires
        centered_on_axes@.len() == facets@.len(),
    ensures
        final(scene).edge_colors@ == old(scene).edge_colors@ + facet_colors(
            facets@.map_values(|f: Facet| f@),
            rank,
            centered_on_axes@,
            face_count,
            facets@.len(),
        ),
        final(scene).edges@ == old(scene).edges@,
        final(scene).dimension == old(scene).dimension,
        final(scene).facet_expansion == old(scene).facet_expansion,
        final(scene).facet_expansion_rank == old(scene).facet_expansion_rank,
        final(scene).min_dimension == old(scene).min_dimension,
        final(scene).resolution == old(scene).resolution,
        final(scene).frame_count == old(scene).frame_count,
{
    let ghost fs = facets@.map_values(|f: Facet| f@);
    let mut k: usize = 0;
    while k < facets.len()
        invariant
            k <= facets@.len(),
            centered_on_axes@.len() == facets@.len(),
            fs == facets@.map_values(|f: Facet| f@),
            scene.edge_colors@ == old(scene).edge_colors@ + facet_colors(
                fs,
                rank,
                centered_on_axes@,
                face_count,
                k as nat,
            ),
            scene.edges@ == old(scene).edges@,
            scene.dimension == old(scene).dimension,
            scene.facet_expansion == old(scene).facet_expansion,
            scene.facet_expansion_rank == old(scene).facet_expansion_rank,
            scene.min_dimension == old(scene).min_dimension,
            scene.resolution == old(scene).resolution,
            scene.frame_count == old(scene).frame_count,
        decreases facets@.len() - k,
    {
        let facet = &facets[k];
        assert(fs[k as int] == facet@);
        let color = facet_edge_color(rank, facet.vertices.len(), centered_on_axes[k], face_count);
        let ghost before = scene.edge_colors@;
        push_edge_colors(scene, color, facet.edge_count);
        assert(scene.edge_colors@ =~= old(scene).edge_colors@ + facet_colors(
            fs,
            rank,
            centered_on_axes@,
            face_count,
            (k + 1) as nat,
        ));
        k = k + 1;
    }
}

/// A loaded polytope: what the file holds, and, when the facets are
/// expanded, the facets.
pub struct LoadedPolytope {
    pub data: PolytopeData,
    pub facets: Option<Vec<Facet>>,
}

/// Loads the polytope file `contents` into the scene: reads it (see
/// `load_polytope_data`), then, when the facet expansion amount is positive
/// after reading, expands the facets (see `expand_facets`), numbering their
/// vertices from `vertex_count`.  On an error in reading the scene is left
/// as it was; on an error in expanding it is left as reading left it.
pub fn load_polytope(scene: &mut Scene, contents: &str, vertex_count: usize) -> (r: Result<
    LoadedPolytope,
    LoadError,
>)
    requires
        old(scene).edges@.len() % 2 == 0,
    ensures
        match load_spec(contents.spec_bytes(), *old(scene)) {
            Err(e) => r == Err::<LoadedPolytope, LoadError>(e) && *final(scene) == *old(scene),
            Ok(m) => if m.expansion != ExpansionSign::Positive {
                match r {
                    Ok(p) => scene_after(*old(scene), *final(scene), m) && data_after(p.data, m)
                        && p.facets is None,
                    Err(_) => false,
                }
            } else {
                match expand_spec(m.elements, m.expansion_rank, vertex_count as nat) {
                    Err(e) => r == Err::<LoadedPolytope, LoadError>(e) && scene_after(
                        *old(scene),
                        *final(scene),
                        m,
                    ),
                    Ok((edges, facets, _)) => match r {
                        Ok(p) => scene_after(
                            *old(scene),
                            *final(scene),
                            OffModel { edges: m.edges + edges, ..m },
                        ) && data_after(p.data, m) && (p.facets matches Some(fs) && fs@.map_values(
                            |f: Facet| f@,
                        ) == facets),
                        Err(_) => false,
                    },
                }
            },
        },
{
    let data = load_polytope_data(scene, contents)?;
    match scene.facet_expansion {
        ExpansionSign::Positive => {
            let facets = expand_facets(scene, &data.elements, vertex_count)?;
            Ok(LoadedPolytope { data, facets: Some(facets) })
        },
        _ => Ok(LoadedPolytope { data, facets: None }),
    }
}

/// Picks one of `files` at random with macroquad's `ChooseRandom::choose`,
/// which draws an index below the length from macroquad's global generator
/// and looks it up.  Claimed: nothing is picked from an empty list; a list
/// of at most 2^53 files always gets a pick (the index is the length times a
/// ratio below 1, computed in `f64`, which holds such lengths exactly, then
/// truncated); and what is picked is one of the files.  Which one is left
/// unsaid: it depends on the generator's state.  Longer lists are left
/// unsaid too: their length is rounded on the way into `f64`.
#[verifier::external_body]
fn choose_path(files: &Vec<String>) -> (r: Option<String>)
    ensures
        files@.len() == 0 ==> r is None,
        1 <= files@.len() <= 0x20_0000_0000_0000 ==> r is Some,
        r matches Some(p) ==> exists|i: int| 0 <= i < files@.len() && p@ == files@[i]@,
{
    files.choose().cloned()
}

/// Where the last path separator (`/` or `\\`) among the first `n` bytes of
/// `c` stands.
pub open spec fn last_separator(c: Seq<u8>, n: int) -> Option<int>
    decreases n,
{
    if n <= 0 {
        None
    } else if c[n - 1] == 47u8 || c[n - 1] == 92u8 {
        Some(n - 1)
    } else {
        last_separator(c, n - 1)
    }
}

/// Where the file name starts in the path `c`: just after its last
/// separator, or at the start when it has none.
pub open spec fn name_start_spec(c: Seq<u8>) -> int {
    match last_separator(c, c.len() as int) {
        Some(k) => k + 1,
        None => 0,
    }
}

/// Where the file name starts in `path` (see `name_start_spec`).
pub fn file_name_start(path: &str) -> (r: usize)
    ensures
        r as int == name_start_spec(path.spec_bytes()),
{
    let bytes = path.as_bytes();
    let mut n = bytes.len();
    while n > 0
        invariant
            n <= bytes@.len(),
            bytes@ == path.spec_bytes(),
            last_separator(bytes@, bytes@.len() as int) == last_separator(bytes@, n as int),
        decreases n,
    {
        if bytes[n - 1] == 47u8 || bytes[n - 1] == 92u8 {
            return n;
        }
        n = n - 1;
    }
    0
}

/// A polytope file picked at random, and where its name starts in its path.
pub struct RandomPick {
    pub path: String,
    pub name_start: usize,
}

/// Picks one of the polytope files `files` at random (see `choose_path`), to
/// be loaded next.  `None` when there are none; a pick whenever there are
/// some (up to 2^53 of them).
pub fn set_random_polytope(files: &Vec<String>) -> (r: Option<RandomPick>)
    ensures
        files@.len() == 0 ==> r is None,
        1 <= files@.len() <= 0x20_0000_0000_0000 ==> r is Some,
        r matches Some(pick) ==> (exists|i: int| 0 <= i < files@.len() && pick.path@ == files@[i]@)
            && pick.name_start as int == name_start_spec(vstd::utf8::encode_utf8(pick.path@)),
{
    match choose_path(files) {
        None => None,
        Some(path) => {
            let name_start = file_name_start(path.as_str());
            Some(RandomPick { path, name_start })
        },
    }
}

/// The edge bookkeeping that reading keeps, relative to the edges `e0` and
/// colours `c0` the scene started with.
pub open spec fn edges_kept(st: OffModel, e0: Seq<usize>, c0: Seq<EdgeColor>) -> bool {
    &&& edges_distinct(st.edges)
    &&& st.edges.len() % 2 == 0
    &&& st.edges.len() >= e0.len()
    &&& st.colors.len() - c0.len() == (st.edges.len() - e0.len()) / 2
}

proof fn lemma_read_line_keeps_edges(
    c: Seq<u8>,
    st: OffModel,
    line: (usize, usize),
    min_dimension: nat,
    e0: Seq<usize>,
    c0: Seq<EdgeColor>,
)
    requires
        edges_kept(st, e0, c0),
        e0.len() % 2 == 0,
    ensures
        match read_line_spec(c, st, line, min_dimension) {
            Ok(next) => edges_kept(next, e0, c0),
            Err(_) => true,
        },
{
    let a = line.0 as int;
    let b = line.1 as int;
    if !(b > a && c[a] == 35u8) && a != b && !ends_with_off(c, a, b) && st.rank != 0 && st.seen
        < u32::MAX && st.state == 3 {
        match index_list(c, a, b) {
            None => {},
            Some(list) => {
                let cyc = cycle_edges(list);
                lemma_merge_edges_distinct(st.edges, cyc, cyc.len() / 2);
                lemma_merge_edges_parity(st.edges, cyc, cyc.len() / 2);
            },
        }
    }
}

proof fn lemma_read_lines_keep_edges(
    c: Seq<u8>,
    lines: Seq<(usize, usize)>,
    n: nat,
    init: OffModel,
    min_dimension: nat,
)
    requires
        edges_distinct(init.edges),
        init.edges.len() % 2 == 0,
    ensures
        match read_lines_spec(c, lines, n, init, min_dimension) {
            Ok(st) => edges_kept(st, init.edges, init.colors),
            Err(_) => true,
        },
    decreases n,
{
    if n > 0 {
        lemma_read_lines_keep_edges(c, lines, (n - 1) as nat, init, min_dimension);
        match read_lines_spec(c, lines, (n - 1) as nat, init, min_dimension) {
            Err(_) => {},
            Ok(st) => {
                if !st.done {
                    lemma_read_line_keeps_edges(
                        c,
                        st,
                        lines[n - 1],
                        min_dimension,
                        init.edges,
                        init.colors,
                    );
                }
            },
        }
    } else {
        assert(edges_kept(init, init.edges, init.colors));
    }
}

/// Reading a polytope file never draws an edge twice: when the scene's edges
/// join no pair of vertices twice (in either direction), neither do they
/// after reading, and every edge that reading adds gets exactly one colour.
pub proof fn lemma_load_keeps_edges_distinct(c: Seq<u8>, scene: Scene)
    requires
        scene.edges@.len() % 2 == 0,
        edges_distinct(scene.edges@),
    ensures
        match load_spec(c, scene) {
            Ok(m) => edges_distinct(m.edges) && m.edges.len() % 2 == 0 && m.edges.len()
                >= scene.edges@.len() && m.colors.len() - scene.edge_colors@.len() == (m.edges.len()
                - scene.edges@.len()) / 2,
            Err(_) => true,
        },
{
    let lines = text_lines(c);
    lemma_read_lines_keep_edges(c, lines, lines.len(), initial_model(scene), scene.min_dimension as nat);
}

} // verus!
