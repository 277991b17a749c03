use grid_wall_builder::grid::{Grid, Segment};

#[test]
fn merge_single_cell() {
    let mut grid = Grid::new(2, 2);
    grid.cells_mut()[0][0] = true;
    let segments = grid.collect_segments();
    assert_eq!(
        segments,
        vec![Segment {
            start_x: 0,
            start_y: 0,
            width: 1,
            height: 1,
        }]
    );
}

#[test]
fn merge_rectangle() {
    let mut grid = Grid::new(4, 4);
    for x in 1..3 {
        for y in 0..2 {
            grid.cells_mut()[x][y] = true;
        }
    }

    let segments = grid.collect_segments();
    assert_eq!(
        segments,
        vec![Segment {
            start_x: 1,
            start_y: 0,
            width: 2,
            height: 2,
        }]
    );
}

#[test]
fn new_grid_is_empty_with_given_size() {
    let grid = Grid::new(3, 5);
    assert_eq!(grid.width(), 3);
    assert_eq!(grid.height(), 5);
    assert_eq!(grid.cells().len(), 3);
    assert!(grid.cells().iter().all(|column| column.len() == 5 && column.iter().all(|c| !c)));
    assert!(grid.collect_segments().is_empty());
}

#[test]
fn merge_l_shape_takes_the_column_first() {
    // column 0 fully painted down 3 rows, plus (1, 2)
    let mut grid = Grid::new(3, 3);
    grid.cells_mut()[0][0] = true;
    grid.cells_mut()[0][1] = true;
    grid.cells_mut()[0][2] = true;
    grid.cells_mut()[1][2] = true;
    let segments = grid.collect_segments();
    assert_eq!(
        segments,
        vec![
            Segment { start_x: 0, start_y: 0, width: 1, height: 3 },
            Segment { start_x: 1, start_y: 2, width: 1, height: 1 },
        ]
    );
}

#[test]
fn merge_row_expands_width_before_height() {
    let mut grid = Grid::new(3, 2);
    for x in 0..3 {
        grid.cells_mut()[x][0] = true;
    }
    grid.cells_mut()[0][1] = true;
    let segments = grid.collect_segments();
    assert_eq!(
        segments,
        vec![
            Segment { start_x: 0, start_y: 0, width: 3, height: 1 },
            Segment { start_x: 0, start_y: 1, width: 1, height: 1 },
        ]
    );
}

#[test]
fn merged_segments_cover_painted_cells_exactly_once() {
    let pattern = [
        [true, true, false, true],
        [false, true, true, true],
        [true, true, true, false],
        [true, false, true, true],
        [false, false, true, true],
    ];
    let mut grid = Grid::new(5, 4);
    for x in 0..5 {
        for y in 0..4 {
            grid.cells_mut()[x][y] = pattern[x][y];
        }
    }
    let segments = grid.collect_segments();
    let mut counts = [[0usize; 4]; 5];
    for s in &segments {
        assert!(s.width > 0 && s.height > 0);
        for x in s.start_x..s.start_x + s.width {
            for y in s.start_y..s.start_y + s.height {
                counts[x][y] += 1;
            }
        }
    }
    for x in 0..5 {
        for y in 0..4 {
            assert_eq!(counts[x][y], if pattern[x][y] { 1 } else { 0 });
        }
    }
}

#[test]
fn resize_preserves_overlap_and_clears_new_cells() {
    let mut grid = Grid::new(2, 2);
    grid.cells_mut()[1][1] = true;
    grid.cells_mut()[0][1] = true;
    grid.resize_preserve(3, 1);
    assert_eq!(grid.width(), 3);
    assert_eq!(grid.height(), 1);
    assert_eq!(grid.cells(), &vec![vec![false], vec![false], vec![false]]);

    let mut grid = Grid::new(2, 2);
    grid.cells_mut()[1][1] = true;
    grid.resize_preserve(3, 3);
    assert_eq!(
        grid.cells(),
        &vec![
            vec![false, false, false],
            vec![false, true, false],
            vec![false, false, false]
        ]
    );
}

#[test]
fn resize_grow_then_shrink_restores_cells() {
    let mut grid = Grid::new(3, 2);
    grid.cells_mut()[0][0] = true;
    grid.cells_mut()[2][1] = true;
    let before = grid.cells().clone();
    grid.resize_preserve(7, 9);
    grid.resize_preserve(3, 2);
    assert_eq!(grid.cells(), &before);
    grid.resize_preserve(3, 2);
    assert_eq!(grid.cells(), &before);
}

#[test]
fn size_is_the_last_one_set() {
    let mut grid = Grid::new(0, 5);
    assert_eq!(grid.height(), 5);
    grid.resize_preserve(3, 2);
    grid.cells_mut()[2][1] = true;
    grid.resize_preserve(4, 6);
    grid.cells_mut()[0][5] = true;
    assert_eq!(grid.width(), 4);
    assert_eq!(grid.height(), 6);
    assert_eq!(grid.cells().len(), 4);
    assert!(grid.cells().iter().all(|column| column.len() == 6));
    assert!(grid.cells()[2][1] && grid.cells()[0][5]);
}
