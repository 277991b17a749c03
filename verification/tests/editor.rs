use grid_wall_builder::editor::{ensure_grid_size, paint_cell, paint_line, PaintStroke};
use grid_wall_builder::grid::Grid;

fn painted(grid: &Grid) -> Vec<(usize, usize)> {
    let mut cells = Vec::new();
    for x in 0..grid.width() {
        for y in 0..grid.height() {
            if grid.cells()[x][y] {
                cells.push((x, y));
            }
        }
    }
    cells
}

#[test]
fn paint_cell_sets_and_clears_inside_only() {
    let mut grid = Grid::new(3, 2);
    paint_cell(&mut grid, 2, 1, true);
    paint_cell(&mut grid, 3, 0, true);
    paint_cell(&mut grid, 0, 2, true);
    assert_eq!(painted(&grid), vec![(2, 1)]);
    paint_cell(&mut grid, 2, 1, false);
    assert!(painted(&grid).is_empty());
}

#[test]
fn paint_line_horizontal_vertical_and_single() {
    let mut grid = Grid::new(6, 6);
    paint_line(&mut grid, (1, 2), (4, 2), true);
    assert_eq!(painted(&grid), vec![(1, 2), (2, 2), (3, 2), (4, 2)]);

    let mut grid = Grid::new(6, 6);
    paint_line(&mut grid, (3, 5), (3, 1), true);
    assert_eq!(painted(&grid), vec![(3, 1), (3, 2), (3, 3), (3, 4), (3, 5)]);

    let mut grid = Grid::new(6, 6);
    paint_line(&mut grid, (2, 2), (2, 2), true);
    assert_eq!(painted(&grid), vec![(2, 2)]);
}

#[test]
fn paint_line_diagonal_and_shallow() {
    let mut grid = Grid::new(6, 6);
    paint_line(&mut grid, (0, 0), (3, 3), true);
    assert_eq!(painted(&grid), vec![(0, 0), (1, 1), (2, 2), (3, 3)]);

    let mut grid = Grid::new(6, 6);
    paint_line(&mut grid, (0, 0), (4, 2), true);
    assert_eq!(painted(&grid), vec![(0, 0), (1, 1), (2, 1), (3, 2), (4, 2)]);

    // from the other end the steps fall on the other side of the ideal line
    let mut back = Grid::new(6, 6);
    paint_line(&mut back, (4, 2), (0, 0), true);
    assert_eq!(painted(&back), vec![(0, 0), (1, 0), (2, 1), (3, 1), (4, 2)]);
    assert!(back.cells()[0][0] && back.cells()[4][2]);
}

#[test]
fn paint_line_ignores_cells_outside_the_grid() {
    let mut grid = Grid::new(2, 2);
    paint_line(&mut grid, (0, 0), (5, 0), true);
    assert_eq!(painted(&grid), vec![(0, 0), (1, 0)]);
}

#[test]
fn ensure_grid_size_resizes_only_when_needed() {
    let mut grid = Grid::new(2, 2);
    grid.cells_mut()[1][1] = true;
    ensure_grid_size(&mut grid, 2, 2);
    assert_eq!(painted(&grid), vec![(1, 1)]);
    ensure_grid_size(&mut grid, 3, 1);
    assert_eq!((grid.width(), grid.height()), (3, 1));
    assert!(painted(&grid).is_empty());
}

#[test]
fn stroke_joins_cells_with_lines_and_resets_on_release() {
    let mut grid = Grid::new(5, 5);
    let mut stroke = PaintStroke::new();
    stroke.pointer_frame(&mut grid, Some(true), Some((0, 0)));
    assert_eq!(stroke.last_painted_cell, Some((0, 0)));
    stroke.pointer_frame(&mut grid, Some(true), Some((3, 0)));
    assert_eq!(painted(&grid), vec![(0, 0), (1, 0), (2, 0), (3, 0)]);
    stroke.pointer_frame(&mut grid, None, None);
    assert_eq!(stroke.paint_value, None);
    assert_eq!(stroke.last_painted_cell, None);
    // a new stroke does not join to the old one
    stroke.pointer_frame(&mut grid, Some(true), Some((0, 4)));
    assert_eq!(painted(&grid).len(), 5);
}

#[test]
fn stroke_switching_button_starts_a_new_stroke() {
    let mut grid = Grid::new(5, 5);
    let mut stroke = PaintStroke::new();
    stroke.pointer_frame(&mut grid, Some(true), Some((0, 0)));
    stroke.pointer_frame(&mut grid, Some(true), Some((4, 0)));
    stroke.pointer_frame(&mut grid, Some(false), Some((2, 0)));
    assert_eq!(stroke.paint_value, Some(false));
    assert_eq!(painted(&grid), vec![(0, 0), (1, 0), (3, 0), (4, 0)]);
    // outside the grid: nothing is painted and the last cell stays
    stroke.pointer_frame(&mut grid, Some(false), Some((9, 9)));
    assert_eq!(stroke.last_painted_cell, Some((2, 0)));
    stroke.pointer_frame(&mut grid, Some(false), None);
    assert_eq!(stroke.last_painted_cell, Some((2, 0)));
}
