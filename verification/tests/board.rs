use chomp3d::Board;

#[test]
fn rejects_empty_axis() {
    assert!(Board::new(0, 1, 1).is_none());
    assert!(Board::new(1, 0, 1).is_none());
    assert!(Board::new(1, 1, 0).is_none());
}

#[test]
fn rejects_too_many_cells() {
    assert!(Board::new(2, 3, 22).is_none());
    assert!(Board::new(1, 1, 129).is_none());
    assert!(Board::new(1000, 1000, 1000).is_none());
}

#[test]
fn accepts_reference_shape() {
    let b = Board::new(2, 3, 19).unwrap();
    assert_eq!(b.cells(), 114);
}

#[test]
fn accepts_full_width_shape() {
    let b = Board::new(4, 4, 8).unwrap();
    assert_eq!(b.cells(), 128);
}

#[test]
fn index_to_coord_reference_shape() {
    let b = Board::new(2, 3, 19).unwrap();
    assert_eq!(chomp3d::grid::index_to_coord(&b, 0), (0, 0, 0));
    assert_eq!(chomp3d::grid::index_to_coord(&b, 1), (1, 0, 0));
    assert_eq!(chomp3d::grid::index_to_coord(&b, 7), (1, 0, 1));
    assert_eq!(chomp3d::grid::index_to_coord(&b, 113), (1, 2, 18));
}

#[test]
fn coord_ge_componentwise() {
    assert!(chomp3d::grid::coord_ge((1, 2, 3), (1, 2, 3)));
    assert!(chomp3d::grid::coord_ge((2, 2, 3), (1, 2, 3)));
    assert!(!chomp3d::grid::coord_ge((0, 9, 9), (1, 0, 0)));
    assert!(chomp3d::grid::coord_ge((5, 5, 5), (0, 0, 0)));
}
