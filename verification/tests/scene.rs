use nd_renderer::animation::{parse_rotations, RotationError};
use nd_renderer::scene::{
    normalize_expansion_rank, parse_setup, rank_from_setting, AnimationConfig, ExpansionSign, Scene,
    SetupError,
};

#[test]
fn stored_rank_settings() {
    assert_eq!(rank_from_setting(3), 3);
    assert_eq!(rank_from_setting(0), 0);
    assert_eq!(rank_from_setting(-1), usize::MAX);
    assert_eq!(rank_from_setting(-2), usize::MAX - 1);
    assert_eq!(rank_from_setting(isize::MIN), isize::MIN as usize);
}

#[test]
fn negative_rank_settings_count_down_from_the_rank() {
    assert_eq!(normalize_expansion_rank(rank_from_setting(-1), 5), 4);
    assert_eq!(normalize_expansion_rank(rank_from_setting(-2), 5), 3);
    assert_eq!(normalize_expansion_rank(rank_from_setting(-3), 5), 2);
    assert_eq!(normalize_expansion_rank(rank_from_setting(-4), 5), 2);
    assert_eq!(normalize_expansion_rank(rank_from_setting(-100), 5), 2);
}

#[test]
fn rank_settings_are_clamped() {
    assert_eq!(normalize_expansion_rank(0, 5), 2);
    assert_eq!(normalize_expansion_rank(3, 5), 3);
    assert_eq!(normalize_expansion_rank(9, 5), 4);
    assert_eq!(normalize_expansion_rank(9, 2), 2);
    assert_eq!(normalize_expansion_rank(9, 1), 2);
}

#[test]
fn normalizing_twice_changes_nothing() {
    for stored in [0, 1, 2, 3, 4, 9, usize::MAX, usize::MAX - 1, usize::MAX / 2 + 1] {
        for rank in 1..=8usize {
            let once = normalize_expansion_rank(stored, rank);
            assert_eq!(normalize_expansion_rank(once, rank), once);
        }
    }
}

#[test]
fn huge_ranks_read_a_normalized_rank_as_a_negative_setting() {
    let once = normalize_expansion_rank(rank_from_setting(-2), usize::MAX);
    assert_eq!(once, usize::MAX - 2);
    assert_eq!(normalize_expansion_rank(once, usize::MAX), usize::MAX - 3);
}

#[test]
fn setup_file() {
    let text = "./polytopes\n./polytopes/cube.off\n1200\n80\n3\n0.75\n-1\n";
    let setup = parse_setup(text).unwrap();
    let (a, b) = setup.polytopes_folder;
    assert_eq!(&text[a..b], "./polytopes");
    let (a, b) = setup.polytope_path;
    assert_eq!(&text[a..b], "./polytopes/cube.off");
    assert_eq!(setup.resolution, 1200);
    assert_eq!(setup.frame_count, 80);
    assert_eq!(setup.min_dimension, 3);
    let (a, b) = setup.facet_expansion;
    assert_eq!(&text[a..b], "0.75");
    assert_eq!(setup.facet_expansion_rank, -1);
}

#[test]
fn setup_file_errors() {
    assert_eq!(parse_setup("a\nb\n1\n2\n3\n0.5\n").err(), Some(SetupError::MissingLines));
    assert_eq!(parse_setup("a\nb\n-1\n2\n3\n0.5\n1\n").err(), Some(SetupError::BadResolution));
    assert_eq!(parse_setup("a\nb\n1\nx\n3\n0.5\n1\n").err(), Some(SetupError::BadFrameCount));
    assert_eq!(parse_setup("a\nb\n1\n2\n-3\n0.5\n1\n").err(), Some(SetupError::BadMinDimension));
    assert_eq!(parse_setup("a\nb\n1\n2\n3\n0.5\n1.5\n").err(), Some(SetupError::BadExpansionRank));
}

#[test]
fn scene_from_config() {
    let scene = Scene::from_config(640, 24, 4, ExpansionSign::Negative, -2);
    assert_eq!(scene.resolution, 640);
    assert_eq!(scene.frame_count, 24);
    assert_eq!(scene.min_dimension, 4);
    assert_eq!(scene.facet_expansion, ExpansionSign::Negative);
    assert_eq!(scene.facet_expansion_rank, usize::MAX - 1);
    assert_eq!(scene.dimension, 0);
    assert!(scene.edges.is_empty());
}

#[test]
fn clearing_keeps_the_colours() {
    let mut scene = Scene::from_config(640, 24, 4, ExpansionSign::Zero, 2);
    scene.edges = vec![0, 1];
    scene.edge_colors = vec![nd_renderer::scene::white()];
    scene.clear_polytope();
    assert!(scene.edges.is_empty());
    assert_eq!(scene.edge_colors.len(), 1);
}

#[test]
fn rank_keys() {
    let mut scene = Scene::from_config(640, 24, 4, ExpansionSign::Positive, 2);
    scene.dimension = 4;
    scene.raise_expansion_rank();
    assert_eq!(scene.facet_expansion_rank, 3);
    scene.raise_expansion_rank();
    assert_eq!(scene.facet_expansion_rank, 3);
    scene.lower_expansion_rank();
    assert_eq!(scene.facet_expansion_rank, 2);
    scene.lower_expansion_rank();
    assert_eq!(scene.facet_expansion_rank, 2);
}

#[test]
fn animation_defaults() {
    let config = AnimationConfig::default();
    assert_eq!(config.resolution, 1200);
    assert_eq!(config.frame_count, 80);
}

#[test]
fn rotations_file() {
    let rotations = parse_rotations("0 3 0 4\n1 3 1\n").unwrap();
    assert_eq!(rotations.len(), 2);
    assert_eq!(rotations[0].axis_a, 0);
    assert_eq!(rotations[0].axis_b, 3);
    assert!(!rotations[0].saved_space);
    assert_eq!(rotations[0].turn_divisor, 4);
    assert_eq!(rotations[1].axis_a, 1);
    assert_eq!(rotations[1].axis_b, 3);
    assert!(rotations[1].saved_space);
    assert_eq!(rotations[1].turn_divisor, 1);
}

#[test]
fn rotations_with_two_numbers_shift_the_groups() {
    // "0 1" becomes 0 1 0, and the next line's first number completes it
    let rotations = parse_rotations("0 1\n2 3 1 5 6\n").unwrap();
    assert_eq!(rotations.len(), 2);
    assert_eq!(rotations[0].turn_divisor, 2);
    assert_eq!(rotations[1].axis_a, 3);
    assert_eq!(rotations[1].turn_divisor, 6);
    assert!(parse_rotations("").unwrap().is_empty());
}

#[test]
fn rotations_file_errors() {
    assert_eq!(parse_rotations("0 1 x\n").err(), Some(RotationError::BadNumber));
    assert_eq!(parse_rotations("0 1 0 2\n\n").err(), Some(RotationError::BadNumber));
    assert_eq!(parse_rotations("0 1 0 2 5\n").err(), Some(RotationError::IncompleteRotation));
}
