use nd_renderer::loader::{
    color_facets, expand_facets, facet_edge_color, file_name_start, load_polytope,
    load_polytope_data, push_edge_colors, set_random_polytope, LoadError,
};
use nd_renderer::scene::{white, EdgeColor, ExpansionSign, Scene};

const TETRAHEDRON: &str = "# a tetrahedron\nOFF\n4 4 6\n\n1 1 1\n1 -1 -1\n-1 1 -1\n-1 -1 1\n\n3 0 1 2\n3 0 3 1\n3 0 2 3\n3 1 3 2\n";

const PENTACHORON: &str = "4OFF\n5 10 10 5\n\n0 0 0 0\n1 0 0 0\n0 1 0 0\n0 0 1 0\n0 0 0 1\n\n3 0 1 2\n3 0 1 3\n3 0 1 4\n3 0 2 3\n3 0 2 4\n3 0 3 4\n3 1 2 3\n3 1 2 4\n3 1 3 4\n3 2 3 4\n\n4 0 1 3 6\n4 0 2 4 7\n4 1 2 5 8\n4 3 4 5 9\n4 6 7 8 9\n\n";

fn scene(sign: ExpansionSign, rank_setting: isize, min_dimension: usize) -> Scene {
    Scene::from_config(1200, 80, min_dimension, sign, rank_setting)
}

#[test]
fn tetrahedron_without_expansion() {
    let mut s = scene(ExpansionSign::Zero, -1, 3);
    let data = load_polytope_data(&mut s, TETRAHEDRON).unwrap();
    assert_eq!(data.rank, 3);
    assert_eq!(s.dimension, 3);
    assert_eq!(data.vertices.len(), 4);
    let second: Vec<&str> =
        data.vertices[1].coordinates.iter().map(|&(a, b)| &TETRAHEDRON[a..b]).collect();
    assert_eq!(second, vec!["1", "-1", "-1"]);
    assert_eq!(data.vertices[1].length, 3);
    assert_eq!(
        data.elements,
        vec![vec![vec![0, 1, 2], vec![0, 3, 1], vec![0, 2, 3], vec![1, 3, 2]]]
    );
    assert_eq!(s.edges, vec![0, 1, 1, 2, 2, 0, 0, 3, 3, 1, 2, 3]);
    assert_eq!(s.edge_colors.len(), 6);
    assert!(s.edge_colors.iter().all(|c| *c == white()));
    // -1 relative to rank 3 is 2
    assert_eq!(s.facet_expansion_rank, 2);
}

#[test]
fn vertices_are_padded_to_the_minimum_dimension() {
    let mut s = scene(ExpansionSign::Zero, -1, 5);
    let data = load_polytope_data(&mut s, TETRAHEDRON).unwrap();
    assert_eq!(s.dimension, 5);
    assert_eq!(data.vertices[0].coordinates.len(), 3);
    assert_eq!(data.vertices[0].length, 5);
}

#[test]
fn extra_spaces_between_coordinates_are_skipped() {
    let text = "2OFF\n3 1\n\n0  1\n 2 3 \n4 5\n\n3 0 1 2\n";
    let mut s = scene(ExpansionSign::Zero, -1, 2);
    let data = load_polytope_data(&mut s, text).unwrap();
    let first: Vec<&str> = data.vertices[0].coordinates.iter().map(|&(a, b)| &text[a..b]).collect();
    let second: Vec<&str> =
        data.vertices[1].coordinates.iter().map(|&(a, b)| &text[a..b]).collect();
    assert_eq!(first, vec!["0", "1"]);
    assert_eq!(second, vec!["2", "3"]);
    assert_eq!(s.edges, vec![0, 1, 1, 2, 2, 0]);
}

#[test]
fn windows_line_endings() {
    let text = TETRAHEDRON.replace('\n', "\r\n");
    let mut s = scene(ExpansionSign::Zero, -1, 3);
    let data = load_polytope_data(&mut s, &text).unwrap();
    assert_eq!(data.vertices.len(), 4);
    assert_eq!(data.elements[0].len(), 4);
    assert_eq!(s.edges.len(), 12);
}

#[test]
fn pentachoron_with_expansion_reads_all_levels() {
    let mut s = scene(ExpansionSign::Positive, -1, 3);
    let data = load_polytope_data(&mut s, PENTACHORON).unwrap();
    assert_eq!(data.rank, 4);
    assert_eq!(s.dimension, 4);
    assert_eq!(data.elements.len(), 2);
    assert_eq!(data.elements[0].len(), 10);
    assert_eq!(data.elements[1][4], vec![6, 7, 8, 9]);
    // no white edges while expanding
    assert!(s.edges.is_empty());
    assert_eq!(s.facet_expansion_rank, 3);
    assert_eq!(s.facet_expansion, ExpansionSign::Positive);
}

#[test]
fn reading_stops_after_the_faces_without_expansion() {
    let mut s = scene(ExpansionSign::Zero, -1, 3);
    let data = load_polytope_data(&mut s, PENTACHORON).unwrap();
    assert_eq!(data.elements.len(), 1);
    assert_eq!(data.elements[0].len(), 10);
    assert_eq!(s.edges.len(), 20);
}

#[test]
fn expansion_turns_off_for_polygons() {
    let text = "2OFF\n3 1\n\n0 0\n1 0\n0 1\n\n3 0 1 2\n";
    let mut s = scene(ExpansionSign::Positive, -1, 2);
    let _ = load_polytope_data(&mut s, text).unwrap();
    assert_eq!(s.facet_expansion, ExpansionSign::Zero);
    assert_eq!(s.edges, vec![0, 1, 1, 2, 2, 0]);
}

#[test]
fn expanding_the_pentachoron_cells() {
    let mut s = scene(ExpansionSign::Positive, -1, 3);
    let loaded = load_polytope(&mut s, PENTACHORON, 0).unwrap();
    let facets = loaded.facets.unwrap();
    assert_eq!(facets.len(), 5);
    assert_eq!(facets[0].vertices, vec![0, 1, 2, 3]);
    assert_eq!(facets[0].edge_count, 6);
    assert_eq!(facets[1].vertices, vec![0, 1, 2, 4]);
    assert_eq!(s.edges.len(), 60);
    assert_eq!(&s.edges[0..12], &[0, 1, 1, 2, 2, 0, 1, 3, 3, 0, 2, 3]);
    assert_eq!(&s.edges[12..24], &[4, 5, 5, 6, 6, 4, 5, 7, 7, 4, 6, 7]);
    // every expanded edge refers to one of the 20 new vertices
    assert!(s.edges.iter().all(|&e| e < 20));
}

#[test]
fn expansion_numbers_from_the_existing_vertices() {
    let mut s = scene(ExpansionSign::Positive, -1, 3);
    let data = load_polytope_data(&mut s, PENTACHORON).unwrap();
    let facets = expand_facets(&mut s, &data.elements, 7).unwrap();
    assert_eq!(facets.len(), 5);
    assert_eq!(&s.edges[0..6], &[7, 8, 8, 9, 9, 7]);
    assert!(s.edges.iter().all(|&e| (7..27).contains(&e)));
}

#[test]
fn expanding_faces_of_the_pentachoron() {
    let mut s = scene(ExpansionSign::Positive, 2, 3);
    let loaded = load_polytope(&mut s, PENTACHORON, 0).unwrap();
    let facets = loaded.facets.unwrap();
    assert_eq!(facets.len(), 10);
    assert_eq!(facets[9].vertices, vec![2, 3, 4]);
    assert_eq!(s.edges.len(), 60);
    assert_eq!(&s.edges[54..60], &[27, 28, 28, 29, 29, 27]);
}

#[test]
fn expansion_rank_out_of_range() {
    let mut s = scene(ExpansionSign::Positive, -1, 3);
    let data = load_polytope_data(&mut s, PENTACHORON).unwrap();
    s.facet_expansion_rank = 5;
    assert!(matches!(expand_facets(&mut s, &data.elements, 0), Err(LoadError::BadExpansionRank)));
    s.facet_expansion_rank = 1;
    assert!(matches!(expand_facets(&mut s, &data.elements, 0), Err(LoadError::BadExpansionRank)));
    assert!(s.edges.is_empty());
}

#[test]
fn element_referring_to_a_missing_face() {
    let text = "4OFF\n4 1 6\n\n0 0 0\n1 0 0\n0 1 0\n0 0 1\n\n3 0 1 2\n\n2 0 5\n\n";
    let mut s = scene(ExpansionSign::Positive, 3, 3);
    let data = load_polytope_data(&mut s, text).unwrap();
    assert_eq!(data.elements, vec![vec![vec![0, 1, 2]], vec![vec![0, 5]]]);
    s.facet_expansion_rank = 3;
    assert!(matches!(expand_facets(&mut s, &data.elements, 0), Err(LoadError::BadElement)));
}

#[test]
fn errors_in_files() {
    let cases: [(&str, LoadError); 6] = [
        ("xOFF\n", LoadError::BadDimension),
        ("OFFOFF\n", LoadError::BadDimension),
        ("1 2 3\nOFF\n", LoadError::MissingHeader),
        ("0OFF\n1\n", LoadError::MissingHeader),
        ("OFF\n3 1 3\n\n0 0 0\n1 0 0\n0 1 0\n\n3  0 1 2\n", LoadError::BadIndex),
        ("OFF\n3 1 3\n\n0 0 0\n1 0 0\n0 1 0\n\n3 0 1 x\n", LoadError::BadIndex),
    ];
    for (text, expected) in cases {
        let mut s = scene(ExpansionSign::Zero, -1, 3);
        s.edges = vec![5, 6];
        match load_polytope_data(&mut s, text) {
            Err(e) => assert_eq!(e, expected, "text {:?}", text),
            Ok(_) => panic!("accepted {:?}", text),
        }
        // the scene is left as it was
        assert_eq!(s.edges, vec![5, 6]);
        assert_eq!(s.dimension, 0);
    }
}

#[test]
fn any_dimension_loads() {
    let mut text = String::from("300OFF\n1\n\n0\n\n1 0\n");
    for _ in 0..297 {
        text.push_str("\n1 0\n");
    }
    text.push_str("\n1 0\n");
    let mut s = scene(ExpansionSign::Positive, -1, 3);
    let data = load_polytope_data(&mut s, &text).unwrap();
    assert_eq!(data.rank, 300);
    assert_eq!(s.dimension, 300);
    // faces and 297 higher levels, up to the facets (rank 299); the last
    // section is past the rank and is not read
    assert_eq!(data.elements.len(), 298);
    assert_eq!(s.facet_expansion_rank, 299);
}

#[test]
fn huge_dimension_header() {
    let mut s = scene(ExpansionSign::Zero, -1, 3);
    let data = load_polytope_data(&mut s, "18446744073709551615OFF\n").unwrap();
    assert_eq!(data.rank, usize::MAX);
    assert_eq!(s.dimension, usize::MAX);
    let mut s = scene(ExpansionSign::Zero, -1, 3);
    assert_eq!(
        load_polytope_data(&mut s, "18446744073709551616OFF\n").err(),
        Some(LoadError::BadDimension)
    );
}

#[test]
fn comments_and_blank_lines_before_the_counts() {
    let text = "# made by hand\nOFF\n# counts follow\n4 4 6\n\n1 1 1\n1 -1 -1\n-1 1 -1\n-1 -1 1\n\n3 0 1 2\n";
    let mut s = scene(ExpansionSign::Zero, -1, 3);
    let data = load_polytope_data(&mut s, text).unwrap();
    assert_eq!(data.vertices.len(), 4);
    assert_eq!(data.elements, vec![vec![vec![0, 1, 2]]]);
}

#[test]
fn existing_edges_are_not_drawn_twice() {
    let mut s = scene(ExpansionSign::Zero, -1, 3);
    s.edges = vec![1, 0];
    s.edge_colors = vec![EdgeColor { r: 1, g: 2, b: 3, a: 4 }];
    let _ = load_polytope_data(&mut s, TETRAHEDRON).unwrap();
    assert_eq!(s.edges, vec![1, 0, 1, 2, 2, 0, 0, 3, 3, 1, 2, 3]);
    assert_eq!(s.edge_colors.len(), 6);
}

#[test]
fn facet_colors() {
    assert_eq!(facet_edge_color(3, 3, false, 4), EdgeColor { r: 213, g: 56, b: 56, a: 255 });
    assert_eq!(facet_edge_color(3, 6, false, 4), EdgeColor { r: 208, g: 100, b: 100, a: 255 });
    assert_eq!(facet_edge_color(3, 4, true, 6), EdgeColor { r: 43, g: 38, b: 135, a: 255 });
    assert_eq!(facet_edge_color(3, 4, true, 30), EdgeColor { r: 229, g: 188, b: 38, a: 255 });
    assert_eq!(facet_edge_color(3, 4, false, 6), EdgeColor { r: 229, g: 188, b: 38, a: 255 });
    assert_eq!(facet_edge_color(3, 8, false, 6), EdgeColor { r: 87, g: 83, b: 153, a: 255 });
    assert_eq!(facet_edge_color(3, 5, false, 6), EdgeColor { r: 139, g: 58, b: 177, a: 255 });
    assert_eq!(facet_edge_color(3, 10, false, 6), EdgeColor { r: 147, g: 98, b: 170, a: 255 });
    assert_eq!(facet_edge_color(3, 7, false, 6), EdgeColor { r: 255, g: 0, b: 255, a: 255 });
    assert_eq!(facet_edge_color(4, 3, false, 6), white());
}

#[test]
fn pushing_colors() {
    let mut s = scene(ExpansionSign::Zero, -1, 3);
    push_edge_colors(&mut s, white(), 3);
    assert_eq!(s.edge_colors, vec![white(); 3]);
}

#[test]
fn file_names() {
    assert_eq!(file_name_start("polytopes/cube.off"), 10);
    assert_eq!(file_name_start("a\\b/c\\cube.off"), 6);
    assert_eq!(file_name_start("cube.off"), 0);
    assert_eq!(file_name_start("dir/"), 4);
}

#[test]
fn random_pick() {
    assert!(set_random_polytope(&vec![]).is_none());
    let files = vec![String::from("polytopes/3D/cube.off")];
    let pick = set_random_polytope(&files).unwrap();
    assert_eq!(pick.path, "polytopes/3D/cube.off");
    assert_eq!(&pick.path[pick.name_start..], "cube.off");
    let many = vec![String::from("a/x.off"), String::from("b/y.off"), String::from("z.off")];
    for _ in 0..20 {
        let pick = set_random_polytope(&many).unwrap();
        assert!(many.contains(&pick.path));
    }
}

#[test]
fn coloring_the_tetrahedron_faces() {
    let mut s = scene(ExpansionSign::Positive, 2, 3);
    let loaded = load_polytope(&mut s, TETRAHEDRON, 0).unwrap();
    let facets = loaded.facets.unwrap();
    assert_eq!(facets.len(), 4);
    color_facets(&mut s, &facets, loaded.data.rank, &vec![false; 4], 4);
    let red = EdgeColor { r: 213, g: 56, b: 56, a: 255 };
    assert_eq!(s.edge_colors, vec![red; 12]);
    assert_eq!(s.edges.len(), 24);
}

#[test]
fn coloring_a_square_on_the_axes() {
    let text = "OFF\n4 1 4\n\n1 1 0\n1 -1 0\n-1 -1 0\n-1 1 0\n\n4 0 1 2 3\n";
    let mut s = scene(ExpansionSign::Positive, 2, 3);
    s.edges = vec![9, 8];
    s.edge_colors = vec![white()];
    let loaded = load_polytope(&mut s, text, 10).unwrap();
    let facets = loaded.facets.unwrap();
    color_facets(&mut s, &facets, loaded.data.rank, &vec![true], 1);
    let blue = EdgeColor { r: 43, g: 38, b: 135, a: 255 };
    assert_eq!(s.edge_colors, vec![white(), blue, blue, blue, blue]);
    assert_eq!(s.edges, vec![9, 8, 10, 11, 11, 12, 12, 13, 13, 10]);
}

#[test]
fn colours_number_half_the_edges_after_a_whole_load() {
    let settings = [
        (ExpansionSign::Zero, -1),
        (ExpansionSign::Positive, -1),
        (ExpansionSign::Positive, 2),
    ];
    for (sign, setting) in settings {
        let mut s = scene(sign, setting, 3);
        let loaded = load_polytope(&mut s, PENTACHORON, 0).unwrap();
        let vertex_total: usize = match &loaded.facets {
            Some(facets) => {
                let flags = vec![false; facets.len()];
                color_facets(&mut s, facets, loaded.data.rank, &flags, 10);
                facets.iter().map(|f| f.vertices.len()).sum()
            }
            None => loaded.data.vertices.len(),
        };
        assert_eq!(s.edge_colors.len() * 2, s.edges.len());
        assert!(s.edges.iter().all(|&e| e < vertex_total));
    }
}

#[test]
fn comment_lines_change_nothing() {
    let commented = "# head\nOFF\n# counts next\n4 4 6\n\n1 1 1\n# a vertex comment\n1 -1 -1\n-1 1 -1\n-1 -1 1\n\n3 0 1 2\n#\n3 0 3 1\n3 0 2 3\n3 1 3 2\n# tail\n";
    let mut a = scene(ExpansionSign::Zero, -1, 3);
    let mut b = scene(ExpansionSign::Zero, -1, 3);
    let da = load_polytope_data(&mut a, TETRAHEDRON).unwrap();
    let db = load_polytope_data(&mut b, commented).unwrap();
    assert_eq!(da.elements, db.elements);
    assert_eq!(da.rank, db.rank);
    assert_eq!(a.edges, b.edges);
    assert_eq!(a.edge_colors, b.edge_colors);
    assert_eq!(a.dimension, b.dimension);
    let texts = |text: &str, d: &nd_renderer::loader::PolytopeData| -> Vec<Vec<String>> {
        d.vertices
            .iter()
            .map(|v| v.coordinates.iter().map(|&(x, y)| text[x..y].to_string()).collect())
            .collect()
    };
    assert_eq!(texts(TETRAHEDRON, &da), texts(commented, &db));
}

#[test]
fn nothing_after_the_faces_is_read_without_expansion() {
    let tail_a = format!("{}garbage that is never read\n", PENTACHORON);
    let tail_b = format!("{}\n\nx y z\n", PENTACHORON);
    let mut a = scene(ExpansionSign::Zero, -1, 3);
    let mut b = scene(ExpansionSign::Zero, -1, 3);
    let da = load_polytope_data(&mut a, &tail_a).unwrap();
    let db = load_polytope_data(&mut b, &tail_b).unwrap();
    assert_eq!(da.elements.len(), 1);
    assert_eq!(da.elements, db.elements);
    assert_eq!(a.edges, b.edges);
    assert_eq!(a.edge_colors, b.edge_colors);
}
