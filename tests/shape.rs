use interp3d::{ConfigError, Dir, GridShape};

#[test]
fn shape_adds_three_ghost_nodes_per_axis() {
    let s = GridShape::new(5, 2, 7).unwrap();
    assert_eq!((s.nx, s.ny, s.nz), (8, 5, 10));
    assert_eq!(s.len(), 8 * 5 * 10);
}

#[test]
fn shape_rejects_too_few_nodes_naming_the_axis() {
    assert_eq!(GridShape::new(1, 5, 5), Err(ConfigError::TooFewNodes(Dir::X)));
    assert_eq!(GridShape::new(5, 0, 5), Err(ConfigError::TooFewNodes(Dir::Y)));
    assert_eq!(GridShape::new(5, 5, 1), Err(ConfigError::TooFewNodes(Dir::Z)));
    assert_eq!(GridShape::new(0, 0, 0), Err(ConfigError::TooFewNodes(Dir::X)));
}

#[test]
fn shape_rejects_a_field_too_large_to_address() {
    assert_eq!(GridShape::new(usize::MAX, 5, 5), Err(ConfigError::TooLarge));
    assert_eq!(GridShape::new(usize::MAX / 4, usize::MAX / 4, 2), Err(ConfigError::TooLarge));
}

#[test]
fn shape_index_is_row_major() {
    let s = GridShape::new(2, 3, 4).unwrap();
    assert_eq!(s.index(0, 0, 0), 0);
    assert_eq!(s.index(0, 0, 1), 1);
    assert_eq!(s.index(0, 1, 0), 7);
    assert_eq!(s.index(1, 0, 0), 42);
    assert_eq!(s.index(4, 5, 6), 4 * 42 + 5 * 7 + 6);
    assert_eq!(s.index(4, 5, 6), s.len() - 1);
}
