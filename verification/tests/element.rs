use nd_renderer::element::get_vertices_from_element;

/// Faces of a cube with vertices 0..8 (bit 0 = x, bit 1 = y, bit 2 = z), and
/// one cell holding all six faces.
fn cube() -> Vec<Vec<Vec<usize>>> {
    vec![
        vec![
            vec![0, 1, 3, 2],
            vec![4, 5, 7, 6],
            vec![0, 1, 5, 4],
            vec![2, 3, 7, 6],
            vec![0, 2, 6, 4],
            vec![1, 3, 7, 5],
        ],
        vec![vec![0, 1, 2, 3, 4, 5]],
    ]
}

#[test]
fn face_gives_its_vertices_and_cycle() {
    let data = cube();
    let mut vertices = vec![];
    let mut edges = vec![];
    get_vertices_from_element(&data, &mut vertices, &mut edges, 2, 0);
    assert_eq!(vertices, vec![0, 1, 3, 2]);
    assert_eq!(edges, vec![0, 1, 1, 3, 3, 2, 2, 0]);
}

#[test]
fn face_appends_to_what_is_there() {
    let data = cube();
    let mut vertices = vec![9];
    let mut edges = vec![7];
    get_vertices_from_element(&data, &mut vertices, &mut edges, 2, 1);
    assert_eq!(vertices, vec![9, 4, 5, 7, 6]);
    assert_eq!(edges, vec![7, 4, 5, 5, 7, 7, 6, 6, 4]);
}

#[test]
fn cell_merges_shared_vertices_and_edges() {
    let data = cube();
    let mut vertices = vec![];
    let mut edges = vec![];
    get_vertices_from_element(&data, &mut vertices, &mut edges, 3, 0);
    assert_eq!(vertices, vec![0, 1, 3, 2, 4, 5, 7, 6]);
    // the 12 edges of the cube, each once, in the order first met
    assert_eq!(
        edges,
        vec![0, 1, 1, 3, 3, 2, 2, 0, 4, 5, 5, 7, 7, 6, 6, 4, 1, 5, 4, 0, 3, 7, 6, 2]
    );
}

#[test]
fn cell_edges_touch_only_collected_vertices() {
    let data = cube();
    let mut vertices = vec![];
    let mut edges = vec![];
    get_vertices_from_element(&data, &mut vertices, &mut edges, 3, 0);
    for e in &edges {
        assert!(vertices.contains(e));
    }
    for i in 0..vertices.len() {
        for j in 0..i {
            assert_ne!(vertices[i], vertices[j]);
        }
    }
    for i in (0..edges.len()).step_by(2) {
        for j in (0..i).step_by(2) {
            let same = (edges[i] == edges[j] && edges[i + 1] == edges[j + 1])
                || (edges[i] == edges[j + 1] && edges[i + 1] == edges[j]);
            assert!(!same);
        }
    }
}

#[test]
fn cell_merge_skips_what_was_already_collected() {
    let data = cube();
    let mut vertices = vec![0, 1];
    let mut edges = vec![1, 0];
    get_vertices_from_element(&data, &mut vertices, &mut edges, 3, 0);
    assert_eq!(vertices, vec![0, 1, 3, 2, 4, 5, 7, 6]);
    assert_eq!(edges.len(), 24);
    assert_eq!(&edges[0..4], &[1, 0, 1, 3]);
}
