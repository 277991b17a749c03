//! Painting on the grid: single cells, straight strokes between two cells
//! (Bresenham's line), resizing to the requested size, and the state of a
//! drag with a mouse button held down.
use vstd::prelude::*;

use crate::grid::{is_resize, Grid};

verus! {

/// Paint (`value == true`) or clear the cell `(x, y)`; a cell outside the
/// grid is ignored.
pub fn paint_cell(grid: &mut Grid, x: usize, y: usize, value: bool)
    requires
        old(grid).wf(),
    ensures
        final(grid).wf(),
        final(grid).w() == old(grid).w(),
        final(grid).h() == old(grid).h(),
        forall|cx: int, cy: int|
            #[trigger] final(grid).cell(cx, cy) == if cx == x && cy == y && x < old(grid).w() && y
                < old(grid).h() {
                value
            } else {
                old(grid).cell(cx, cy)
            },
{
    if x < grid.width() && y < grid.height() {
        grid.set(x, y, value);
    }
}

/// Along a line that moves `big_x` cells across and `big_y` cells down, the
/// step after `nx` moves across and `ny` moves down moves across.
pub open spec fn steps_across(big_x: int, big_y: int, nx: int, ny: int) -> bool {
    big_y * (2 * nx + 1) <= 2 * big_x * (ny + 1)
}

/// ... and moves down.
pub open spec fn steps_down(big_x: int, big_y: int, nx: int, ny: int) -> bool {
    big_x * (2 * ny + 1) <= 2 * big_y * (nx + 1)
}

/// Each step of the line moves at least one way and never past the end.
pub proof fn lemma_line_step(big_x: int, big_y: int, nx: int, ny: int)
    requires
        0 <= nx <= big_x,
        0 <= ny <= big_y,
        !(nx == big_x && ny == big_y),
    ensures
        steps_across(big_x, big_y, nx, ny) || steps_down(big_x, big_y, nx, ny),
        steps_across(big_x, big_y, nx, ny) ==> nx < big_x,
        steps_down(big_x, big_y, nx, ny) ==> ny < big_y,
{
    if !steps_across(big_x, big_y, nx, ny) {
        assert(steps_down(big_x, big_y, nx, ny)) by (nonlinear_arith)
            requires
                big_y * (2 * nx + 1) > 2 * big_x * (ny + 1),
                0 <= nx,
                0 <= ny,
                0 <= big_x,
                0 <= big_y,
        ;
    }
    if steps_across(big_x, big_y, nx, ny) && nx == big_x {
        assert(false) by (nonlinear_arith)
            requires
                big_y * (2 * nx + 1) <= 2 * big_x * (ny + 1),
                nx == big_x,
                0 <= ny < big_y,
                0 <= big_x,
        ;
    }
    if steps_down(big_x, big_y, nx, ny) && ny == big_y {
        assert(false) by (nonlinear_arith)
            requires
                big_x * (2 * ny + 1) <= 2 * big_y * (nx + 1),
                ny == big_y,
                0 <= nx < big_x,
                0 <= big_y,
        ;
    }
}

/// The offsets `(nx, ny)` that Bresenham's line visits from `(nx, ny)` on,
/// when it moves `big_x` cells across and `big_y` cells down in all.
pub open spec fn line_offsets(big_x: int, big_y: int, nx: int, ny: int) -> Seq<(int, int)>
    decreases (big_x - nx) + (big_y - ny),
    when 0 <= nx <= big_x && 0 <= ny <= big_y
{
    if nx == big_x && ny == big_y {
        seq![(nx, ny)]
    } else {
        proof {
            lemma_line_step(big_x, big_y, nx, ny);
        }
        let nx2 = if steps_across(big_x, big_y, nx, ny) {
            nx + 1
        } else {
            nx
        };
        let ny2 = if steps_down(big_x, big_y, nx, ny) {
            ny + 1
        } else {
            ny
        };
        seq![(nx, ny)] + line_offsets(big_x, big_y, nx2, ny2)
    }
}

/// The direction from `a` towards `b` (`-1` when they are equal).
pub open spec fn direction(a: int, b: int) -> int {
    if a < b {
        1
    } else {
        -1
    }
}

/// The distance between `a` and `b`.
pub open spec fn distance(a: int, b: int) -> int {
    if a < b {
        b - a
    } else {
        a - b
    }
}

/// The cell `(x, y)` lies on Bresenham's line from `from` to `to`.
pub open spec fn on_line(from: (usize, usize), to: (usize, usize), x: int, y: int) -> bool {
    let big_x = distance(from.0 as int, to.0 as int);
    let big_y = distance(from.1 as int, to.1 as int);
    let offsets = line_offsets(big_x, big_y, 0, 0);
    exists|i: int|
        0 <= i < offsets.len() && x == from.0 + direction(from.0 as int, to.0 as int)
            * #[trigger] offsets[i].0 && y == from.1 + direction(from.1 as int, to.1 as int)
            * offsets[i].1
}

/// Paint (or clear) every cell on the straight line from `from` to `to`
/// (Bresenham's line, both ends included); cells outside the grid are
/// ignored.
pub fn paint_line(grid: &mut Grid, from: (usize, usize), to: (usize, usize), value: bool)
    requires
        old(grid).wf(),
        from.0 <= isize::MAX / 8,
        from.1 <= isize::MAX / 8,
        to.0 <= isize::MAX / 8,
        to.1 <= isize::MAX / 8,
    ensures
        final(grid).wf(),
        final(grid).w() == old(grid).w(),
        final(grid).h() == old(grid).h(),
        forall|cx: int, cy: int|
            #[trigger] final(grid).cell(cx, cy) == if on_line(from, to, cx, cy) && cx < old(
                grid,
            ).w() && cy < old(grid).h() {
                value
            } else {
                old(grid).cell(cx, cy)
            },
{
    let (mut x0, mut y0) = (from.0 as isize, from.1 as isize);
    let (x1, y1) = (to.0 as isize, to.1 as isize);

    let dx: isize = if x1 >= x0 {
        x1 - x0
    } else {
        x0 - x1
    };
    let sx: isize = if x0 < x1 {
        1
    } else {
        -1
    };
    let dy: isize = if y1 >= y0 {
        -(y1 - y0)
    } else {
        -(y0 - y1)
    };
    let sy: isize = if y0 < y1 {
        1
    } else {
        -1
    };
    let mut err: isize = dx + dy;

    let ghost big_x = dx as int;
    let ghost big_y = -dy as int;
    let ghost offsets = line_offsets(big_x, big_y, 0, 0);
    let ghost mut nx: int = 0;
    let ghost mut ny: int = 0;
    let ghost mut done: int = 0;
    let ghost start = *grid;
    assert(big_x == distance(from.0 as int, to.0 as int));
    assert(big_y == distance(from.1 as int, to.1 as int));
    assert(sx == direction(from.0 as int, to.0 as int));
    assert(sy == direction(from.1 as int, to.1 as int));

    loop
        invariant_except_break
            grid.wf(),
            grid.w() == start.w(),
            grid.h() == start.h(),
            0 <= big_x <= isize::MAX / 8,
            0 <= big_y <= isize::MAX / 8,
            0 <= nx <= big_x,
            0 <= ny <= big_y,
            x0 == from.0 + sx * nx,
            y0 == from.1 + sy * ny,
            x1 == to.0,
            y1 == to.1,
            dx == big_x,
            dy == -big_y,
            sx == direction(from.0 as int, to.0 as int),
            sy == direction(from.1 as int, to.1 as int),
            big_x == distance(from.0 as int, to.0 as int),
            big_y == distance(from.1 as int, to.1 as int),
            err == big_x * (1 + ny) - big_y * (1 + nx),
            -2 * big_y <= err <= 2 * big_x,
            offsets == line_offsets(big_x, big_y, 0, 0),
            0 <= done < offsets.len(),
            offsets.subrange(done, offsets.len() as int) == line_offsets(big_x, big_y, nx, ny),
            forall|cx: int, cy: int|
                #[trigger] grid.cell(cx, cy) == if (exists|i: int|
                    0 <= i < done && cx == from.0 + sx * #[trigger] offsets[i].0 && cy == from.1 + sy
                        * offsets[i].1) && cx < start.w() && cy < start.h() {
                    value
                } else {
                    start.cell(cx, cy)
                },
        ensures
            grid.wf(),
            grid.w() == start.w(),
            grid.h() == start.h(),
            forall|cx: int, cy: int|
                #[trigger] grid.cell(cx, cy) == if (exists|i: int|
                    0 <= i < offsets.len() && cx == from.0 + sx * #[trigger] offsets[i].0 && cy
                        == from.1 + sy * offsets[i].1) && cx < start.w() && cy < start.h() {
                    value
                } else {
                    start.cell(cx, cy)
                },
        decreases (big_x - nx) + (big_y - ny),
    {
        assert(offsets[done] == (nx, ny)) by {
            assert(offsets.subrange(done, offsets.len() as int)[0] == offsets[done]);
        }
        assert(0 <= x0 && 0 <= y0) by (nonlinear_arith)
            requires
                x0 == from.0 + sx * nx,
                y0 == from.1 + sy * ny,
                sx == direction(from.0 as int, to.0 as int),
                sy == direction(from.1 as int, to.1 as int),
                0 <= nx <= distance(from.0 as int, to.0 as int),
                0 <= ny <= distance(from.1 as int, to.1 as int),
                from.0 >= 0,
                from.1 >= 0,
                to.0 >= 0,
                to.1 >= 0,
        ;
        let ghost before = *grid;
        paint_cell(grid, x0 as usize, y0 as usize, value);
        proof {
            assert forall|cx: int, cy: int|
                #[trigger] grid.cell(cx, cy) == if (exists|i: int|
                    0 <= i < done + 1 && cx == from.0 + sx * #[trigger] offsets[i].0 && cy == from.1
                        + sy * offsets[i].1) && cx < start.w() && cy < start.h() {
                    value
                } else {
                    start.cell(cx, cy)
                } by {
                if cx == x0 && cy == y0 {
                    assert(cx == from.0 + sx * offsets[done].0 && cy == from.1 + sy * offsets[done].1);
                } else {
                    if exists|i: int|
                        0 <= i < done + 1 && cx == from.0 + sx * #[trigger] offsets[i].0 && cy
                            == from.1 + sy * offsets[i].1 {
                        let i = choose|i: int|
                            0 <= i < done + 1 && cx == from.0 + sx * #[trigger] offsets[i].0 && cy
                                == from.1 + sy * offsets[i].1;
                        assert(i < done);
                    }
                }
            }
        }

        if x0 == x1 && y0 == y1 {
            proof {
                assert(nx == big_x && ny == big_y) by (nonlinear_arith)
                    requires
                        x0 == from.0 + sx * nx,
                        y0 == from.1 + sy * ny,
                        x0 == to.0,
                        y0 == to.1,
                        sx == direction(from.0 as int, to.0 as int),
                        sy == direction(from.1 as int, to.1 as int),
                        big_x == distance(from.0 as int, to.0 as int),
                        big_y == distance(from.1 as int, to.1 as int),
                ;
                assert(line_offsets(big_x, big_y, nx, ny).len() == 1);
                assert(done + 1 == offsets.len());
            }
            break;
        }
        proof {
            assert(!(nx == big_x && ny == big_y)) by (nonlinear_arith)
                requires
                    x0 == from.0 + sx * nx,
                    y0 == from.1 + sy * ny,
                    !(x0 == to.0 && y0 == to.1),
                    sx == direction(from.0 as int, to.0 as int),
                    sy == direction(from.1 as int, to.1 as int),
                    big_x == distance(from.0 as int, to.0 as int),
                    big_y == distance(from.1 as int, to.1 as int),
            ;
            lemma_line_step(big_x, big_y, nx, ny);
        }

        let twice_err = 2 * err;
        let ghost across = steps_across(big_x, big_y, nx, ny);
        let ghost down = steps_down(big_x, big_y, nx, ny);
        assert((twice_err >= dy) == across) by (nonlinear_arith)
            requires
                twice_err == 2 * err,
                err == big_x * (1 + ny) - big_y * (1 + nx),
                dy == -big_y,
                across == steps_across(big_x, big_y, nx, ny),
        ;
        assert((twice_err <= dx) == down) by (nonlinear_arith)
            requires
                twice_err == 2 * err,
                err == big_x * (1 + ny) - big_y * (1 + nx),
                dx == big_x,
                down == steps_down(big_x, big_y, nx, ny),
        ;
        let ghost nx2 = if across {
            nx + 1
        } else {
            nx
        };
        let ghost ny2 = if down {
            ny + 1
        } else {
            ny
        };
        if twice_err >= dy {
            err = err + dy;
            x0 = x0 + sx;
        }
        if twice_err <= dx {
            err = err + dx;
            y0 = y0 + sy;
        }
        proof {
            assert(offsets.subrange(done + 1, offsets.len() as int) == line_offsets(
                big_x,
                big_y,
                nx2,
                ny2,
            )) by {
                assert(line_offsets(big_x, big_y, nx, ny) == seq![(nx, ny)] + line_offsets(
                    big_x,
                    big_y,
                    nx2,
                    ny2,
                ));
                assert(offsets.subrange(done + 1, offsets.len() as int) =~= offsets.subrange(
                    done,
                    offsets.len() as int,
                ).drop_first());
            }
            assert(err == big_x * (1 + ny2) - big_y * (1 + nx2)) by (nonlinear_arith)
                requires
                    err == big_x * (1 + ny) - big_y * (1 + nx) + (if across {
                        -big_y
                    } else {
                        0
                    }) + (if down {
                        big_x
                    } else {
                        0
                    }),
                    nx2 == (if across {
                        nx + 1
                    } else {
                        nx
                    }),
                    ny2 == (if down {
                        ny + 1
                    } else {
                        ny
                    }),
            ;
            assert(x0 == from.0 + sx * nx2) by (nonlinear_arith)
                requires
                    x0 == from.0 + sx * nx + (if across {
                        sx
                    } else {
                        0
                    }),
                    nx2 == (if across {
                        nx + 1
                    } else {
                        nx
                    }),
            ;
            assert(y0 == from.1 + sy * ny2) by (nonlinear_arith)
                requires
                    y0 == from.1 + sy * ny + (if down {
                        sy
                    } else {
                        0
                    }),
                    ny2 == (if down {
                        ny + 1
                    } else {
                        ny
                    }),
            ;
            nx = nx2;
            ny = ny2;
            done = done + 1;
        }
    }
    proof {
        assert forall|cx: int, cy: int|
            #[trigger] grid.cell(cx, cy) == if on_line(from, to, cx, cy) && cx < start.w() && cy
                < start.h() {
                value
            } else {
                start.cell(cx, cy)
            } by {
            if on_line(from, to, cx, cy) {
                let i = choose|i: int|
                    0 <= i < offsets.len() && cx == from.0 + direction(from.0 as int, to.0 as int)
                        * #[trigger] offsets[i].0 && cy == from.1 + direction(
                        from.1 as int,
                        to.1 as int,
                    ) * offsets[i].1;
                assert(cx == from.0 + sx * offsets[i].0 && cy == from.1 + sy * offsets[i].1);
            }
        }
    }
}

/// `after` is `before` with the cell `(x, y)` set to `value` (when it lies
/// inside the grid).
pub open spec fn is_cell_painted(before: Grid, after: Grid, x: int, y: int, value: bool) -> bool {
    &&& after.wf()
    &&& after.w() == before.w()
    &&& after.h() == before.h()
    &&& forall|cx: int, cy: int|
        #[trigger] after.cell(cx, cy) == if cx == x && cy == y && 0 <= x < before.w() && 0 <= y
            < before.h() {
            value
        } else {
            before.cell(cx, cy)
        }
}

/// `after` is `before` with the cells of the line from `from` to `to` set
/// to `value` (those inside the grid).
pub open spec fn is_line_painted(
    before: Grid,
    after: Grid,
    from: (usize, usize),
    to: (usize, usize),
    value: bool,
) -> bool {
    &&& after.wf()
    &&& after.w() == before.w()
    &&& after.h() == before.h()
    &&& forall|cx: int, cy: int|
        #[trigger] after.cell(cx, cy) == if on_line(from, to, cx, cy) && cx < before.w() && cy
            < before.h() {
            value
        } else {
            before.cell(cx, cy)
        }
}

/// Resize the grid to `width` x `height` unless it already has that size.
pub fn ensure_grid_size(grid: &mut Grid, width: usize, height: usize)
    requires
        old(grid).wf(),
    ensures
        is_resize(*old(grid), *final(grid), width as int, height as int),
{
    if grid.width() != width || grid.height() != height {
        grid.resize_preserve(width, height);
    }
}

/// The largest coordinate that a stroke handles.
pub open spec fn stroke_limit() -> int {
    isize::MAX / 8
}

/// A paint stroke: the value being painted while a mouse button is held
/// (`true` paints, `false` clears) and the last cell painted.
pub struct PaintStroke {
    pub paint_value: Option<bool>,
    pub last_painted_cell: Option<(usize, usize)>,
}

impl PaintStroke {
    /// The last cell painted lies within the coordinates a stroke handles.
    pub open spec fn wf(self) -> bool {
        self.last_painted_cell matches Some(c) ==> c.0 <= stroke_limit() && c.1 <= stroke_limit()
    }

    /// No stroke in progress.
    pub fn new() -> (stroke: Self)
        ensures
            stroke.paint_value is None,
            stroke.last_painted_cell is None,
            stroke.wf(),
    {
        PaintStroke { paint_value: None, last_painted_cell: None }
    }

    /// One frame of pointer input. `button` is the held button's value
    /// (`Some(true)` for the primary one, `Some(false)` for the secondary
    /// one, `None` for none); `cell` is the grid cell under the pointer, if
    /// the pointer is over the grid's area. A new value starts a new stroke;
    /// a cell inside the grid is painted, joined by a straight line to the
    /// cell painted before it in the same stroke.
    pub fn pointer_frame(&mut self, grid: &mut Grid, button: Option<bool>, cell: Option<(usize, usize)>)
        requires
            old(self).wf(),
            old(grid).wf(),
            old(grid).w() <= stroke_limit(),
            old(grid).h() <= stroke_limit(),
        ensures
            final(self).wf(),
            match button {
                None => final(self).paint_value is None && final(self).last_painted_cell is None
                    && *final(grid) == *old(grid),
                Some(v) => {
                    let last = if old(self).paint_value == Some(v) {
                        old(self).last_painted_cell
                    } else {
                        None
                    };
                    &&& final(self).paint_value == Some(v)
                    &&& match cell {
                        Some(c) if c.0 < old(grid).w() && c.1 < old(grid).h() => {
                            &&& final(self).last_painted_cell == Some(c)
                            &&& match last {
                                Some(p) => is_line_painted(*old(grid), *final(grid), p, c, v),
                                None => is_cell_painted(*old(grid), *final(grid), c.0 as int, c.1 as int, v),
                            }
                        },
                        _ => final(self).last_painted_cell == last && *final(grid) == *old(grid),
                    }
                },
            },
    {
        match button {
            Some(value) => {
                if self.paint_value != Some(value) {
                    self.paint_value = Some(value);
                    self.last_painted_cell = None;
                }
                let grid_w = grid.width();
                let grid_h = grid.height();
                match cell {
                    Some((x, y)) => {
                        if x < grid_w && y < grid_h {
                            let current = (x, y);
                            match self.last_painted_cell {
                                Some(previous) => paint_line(grid, previous, current, value),
                                None => paint_cell(grid, x, y, value),
                            }
                            self.last_painted_cell = Some(current);
                        }
                    },
                    None => {},
                }
            },
            None => {
                self.paint_value = None;
                self.last_painted_cell = None;
            },
        }
    }
}

} // verus!
