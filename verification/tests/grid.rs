use mandelbrot::grid::{check_partition, ImageDim, Tile, TilingError};

fn tile(left: usize, top: usize, right: usize, bottom: usize) -> Tile {
    Tile { left, top, right, bottom }
}

#[test]
fn new_dims_must_be_positive() {
    assert_eq!(ImageDim::new(3, 4), Some(ImageDim { width: 3, height: 4 }));
    assert_eq!(ImageDim::new(0, 4), None);
    assert_eq!(ImageDim::new(3, 0), None);
}

#[test]
fn default_size_is_900_by_600() {
    assert_eq!(ImageDim::default_size(), ImageDim { width: 900, height: 600 });
}

#[test]
fn tile_contains_its_pixels_only() {
    let t = tile(2, 3, 5, 4);
    assert!(t.contains(2, 3));
    assert!(t.contains(4, 3));
    assert!(!t.contains(5, 3));
    assert!(!t.contains(2, 4));
    assert!(!t.contains(1, 3));
    assert!(!t.contains(2, 2));
    assert_eq!(t.width(), 3);
    assert_eq!(t.height(), 1);
}

#[test]
fn quadrants_of_an_even_grid() {
    let dims = ImageDim { width: 900, height: 600 };
    assert_eq!(
        dims.quadrants(),
        vec![
            tile(0, 0, 450, 300),
            tile(450, 0, 900, 300),
            tile(0, 300, 450, 600),
            tile(450, 300, 900, 600),
        ]
    );
}

#[test]
fn quadrants_of_an_odd_grid_round_the_cut_down() {
    let dims = ImageDim { width: 5, height: 3 };
    assert_eq!(
        dims.quadrants(),
        vec![tile(0, 0, 2, 1), tile(2, 0, 5, 1), tile(0, 1, 2, 3), tile(2, 1, 5, 3)]
    );
}

#[test]
fn quadrants_divide_the_grid() {
    let mut w: usize = 0;
    while w < 6 {
        let mut h: usize = 0;
        while h < 6 {
            let dims = ImageDim { width: w, height: h };
            assert_eq!(check_partition(&dims, &dims.quadrants()), Ok(()));
            assert_eq!(check_partition(&dims, &vec![dims.whole()]), Ok(()));
            h += 1;
        }
        w += 1;
    }
}

#[test]
fn whole_is_the_grid() {
    let dims = ImageDim { width: 7, height: 2 };
    assert_eq!(dims.whole(), tile(0, 0, 7, 2));
}

#[test]
fn strips_divide_the_grid() {
    let dims = ImageDim { width: 4, height: 3 };
    let tiles = vec![tile(0, 0, 4, 1), tile(0, 1, 4, 2), tile(0, 2, 4, 3)];
    assert_eq!(check_partition(&dims, &tiles), Ok(()));
    // empty tiles do no harm
    let tiles = vec![tile(0, 0, 4, 1), tile(2, 2, 2, 2), tile(0, 1, 4, 3), tile(4, 3, 4, 3)];
    assert_eq!(check_partition(&dims, &tiles), Ok(()));
}

#[test]
fn too_large_a_grid_is_named_first() {
    let dims = ImageDim { width: usize::MAX, height: 2 };
    assert_eq!(check_partition(&dims, &vec![tile(9, 9, 1, 1)]), Err(TilingError::TooLarge));
    let dims = ImageDim { width: usize::MAX / 4 + 1, height: 1 };
    assert_eq!(check_partition(&dims, &vec![]), Err(TilingError::TooLarge));
}

#[test]
fn first_tile_outside_the_grid_is_named() {
    let dims = ImageDim { width: 4, height: 4 };
    let tiles = vec![tile(0, 0, 2, 4), tile(2, 0, 5, 4), tile(0, 0, 4, 5)];
    assert_eq!(check_partition(&dims, &tiles), Err(TilingError::OutOfGrid { tile: 1 }));
    let tiles = vec![tile(0, 0, 2, 4), tile(2, 0, 4, 5)];
    assert_eq!(check_partition(&dims, &tiles), Err(TilingError::OutOfGrid { tile: 1 }));
    // corners out of order
    let tiles = vec![tile(3, 0, 2, 4)];
    assert_eq!(check_partition(&dims, &tiles), Err(TilingError::OutOfGrid { tile: 0 }));
    let tiles = vec![tile(0, 3, 4, 2)];
    assert_eq!(check_partition(&dims, &tiles), Err(TilingError::OutOfGrid { tile: 0 }));
}

#[test]
fn outside_is_named_before_overlap() {
    let dims = ImageDim { width: 4, height: 4 };
    let tiles = vec![tile(0, 0, 4, 4), tile(0, 0, 1, 1), tile(0, 0, 9, 9)];
    assert_eq!(check_partition(&dims, &tiles), Err(TilingError::OutOfGrid { tile: 2 }));
}

#[test]
fn first_overlapping_tile_is_named() {
    let dims = ImageDim { width: 4, height: 4 };
    let tiles = vec![tile(0, 0, 2, 4), tile(2, 0, 4, 4), tile(1, 1, 3, 3), tile(0, 0, 4, 4)];
    assert_eq!(check_partition(&dims, &tiles), Err(TilingError::Overlap { tile: 2 }));
    let tiles = vec![tile(0, 0, 3, 3), tile(2, 2, 4, 4)];
    assert_eq!(check_partition(&dims, &tiles), Err(TilingError::Overlap { tile: 1 }));
    let tiles = vec![tile(0, 0, 4, 4), tile(0, 0, 4, 4)];
    assert_eq!(check_partition(&dims, &tiles), Err(TilingError::Overlap { tile: 1 }));
}

#[test]
fn overlap_is_named_before_a_gap() {
    let dims = ImageDim { width: 4, height: 4 };
    let tiles = vec![tile(0, 0, 2, 2), tile(1, 1, 3, 3)];
    assert_eq!(check_partition(&dims, &tiles), Err(TilingError::Overlap { tile: 1 }));
}

#[test]
fn first_uncovered_pixel_is_named_column_by_column() {
    let dims = ImageDim { width: 4, height: 4 };
    assert_eq!(check_partition(&dims, &vec![]), Err(TilingError::Uncovered { x: 0, y: 0 }));
    let tiles = vec![tile(0, 0, 2, 4), tile(2, 0, 4, 3)];
    assert_eq!(check_partition(&dims, &tiles), Err(TilingError::Uncovered { x: 2, y: 3 }));
    let tiles = vec![tile(0, 0, 4, 2), tile(1, 2, 4, 4)];
    assert_eq!(check_partition(&dims, &tiles), Err(TilingError::Uncovered { x: 0, y: 2 }));
    // pixel (1, 3) comes before pixel (2, 0)
    let tiles = vec![tile(0, 0, 1, 4), tile(1, 0, 2, 3), tile(2, 1, 4, 4), tile(3, 0, 4, 1)];
    assert_eq!(check_partition(&dims, &tiles), Err(TilingError::Uncovered { x: 1, y: 3 }));
}

#[test]
fn empty_grid_needs_no_tile() {
    let dims = ImageDim { width: 0, height: 5 };
    assert_eq!(check_partition(&dims, &vec![]), Ok(()));
    assert_eq!(check_partition(&dims, &vec![tile(0, 0, 0, 5)]), Ok(()));
}
