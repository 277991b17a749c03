//! Grid model and rectangle-merging logic.
//!
//! The editor paints individual cells on a discrete grid. When exporting,
//! adjacent filled cells are merged into rectangular segments so that the
//! Godot scene needs fewer nodes and shapes.
use vstd::prelude::*;

use crate::columns::{blank_columns, columns_of, lemma_column_at, lemma_columns_len, set_cell, shaped};

verus! {

broadcast use {lemma_columns_len, lemma_column_at};

/// A merged rectangle of filled cells (in grid coordinates).
#[derive(Clone, Copy, Debug, PartialEq, Eq, Structural)]
pub struct Segment {
    pub start_x: usize,
    pub start_y: usize,
    pub width: usize,
    pub height: usize,
}

impl Segment {
    /// The cell `(x, y)` lies inside this rectangle.
    pub open spec fn contains(self, x: int, y: int) -> bool {
        &&& self.start_x <= x < self.start_x + self.width
        &&& self.start_y <= y < self.start_y + self.height
    }

    /// The row just below the rectangle.
    pub open spec fn bottom(self) -> int {
        self.start_y + self.height
    }
}

/// Some segment of `segments` contains the cell `(x, y)`.
pub open spec fn covered_by(segments: Seq<Segment>, x: int, y: int) -> bool {
    exists|i: int| 0 <= i < segments.len() && #[trigger] segments[i].contains(x, y)
}

/// `(x1, y1)` comes before `(x2, y2)` when the grid is scanned column by
/// column (x outer, y inner).
pub open spec fn scan_before(x1: int, y1: int, x2: int, y2: int) -> bool {
    x1 < x2 || (x1 == x2 && y1 < y2)
}

/// A boolean occupancy grid.
///
/// Storage is `[x][y]` to match how the editor accesses cells.
#[derive(Clone, Debug)]
pub struct Grid {
    width: usize,
    height: usize,
    cells: Vec<Vec<bool>>,
}

impl Grid {
    /// Width in cells.
    pub closed spec fn w(self) -> int {
        self.width as int
    }

    /// Height in cells.
    pub closed spec fn h(self) -> int {
        self.height as int
    }

    /// The cell storage, column by column.
    pub closed spec fn columns(self) -> Seq<Seq<bool>> {
        columns_of(self.cells@)
    }

    /// The storage has exactly `w()` columns of `h()` cells.
    pub open spec fn wf(self) -> bool {
        shaped(self.columns(), self.w(), self.h())
    }

    /// The cell `(x, y)` lies inside the grid and is painted.
    pub open spec fn cell(self, x: int, y: int) -> bool {
        &&& 0 <= x < self.w()
        &&& 0 <= y < self.h()
        &&& self.columns()[x][y]
    }

    /// Create a new empty grid.
    pub fn new(width: usize, height: usize) -> (grid: Self)
        ensures
            grid.wf(),
            grid.w() == width,
            grid.h() == height,
            forall|x: int, y: int| !grid.cell(x, y),
    {
        Grid { width, height, cells: blank_columns(width, height) }
    }

    /// Grid width in cells.
    pub fn width(&self) -> (w: usize)
        ensures
            w == self.w(),
    {
        self.width
    }

    /// Grid height in cells.
    pub fn height(&self) -> (h: usize)
        ensures
            h == self.h(),
    {
        self.height
    }

    /// Read access to the cell storage.
    ///
    /// Indexing is `[x][y]`.
    pub fn cells(&self) -> (cells: &Vec<Vec<bool>>)
        ensures
            columns_of(cells@) == self.columns(),
    {
        &self.cells
    }

    /// Mutable access to the cell storage.
    ///
    /// Indexing is `[x][y]`.
    pub fn cells_mut(&mut self) -> (cells: &mut Vec<Vec<bool>>)
        ensures
            columns_of(cells@) == old(self).columns(),
            final(self).columns() == columns_of(final(cells)@),
            final(self).w() == old(self).w(),
            final(self).h() == old(self).h(),
    {
        &mut self.cells
    }

    /// Whether the cell `(x, y)` is painted.
    pub fn is_filled(&self, x: usize, y: usize) -> (r: bool)
        requires
            self.wf(),
            x < self.w(),
            y < self.h(),
        ensures
            r == self.cell(x as int, y as int),
    {
        self.cells[x][y]
    }

    /// Paint (`true`) or clear (`false`) the cell `(x, y)`.
    pub fn set(&mut self, x: usize, y: usize, value: bool)
        requires
            old(self).wf(),
            x < old(self).w(),
            y < old(self).h(),
        ensures
            final(self).wf(),
            final(self).w() == old(self).w(),
            final(self).h() == old(self).h(),
            forall|cx: int, cy: int|
                #[trigger] final(self).cell(cx, cy) == if cx == x && cy == y {
                    value
                } else {
                    old(self).cell(cx, cy)
                },
    {
        set_cell(&mut self.cells, x, y, value);
    }

    /// Resize the grid, preserving any overlapping painted cells.
    pub fn resize_preserve(&mut self, new_width: usize, new_height: usize)
        requires
            old(self).wf(),
        ensures
            is_resize(*old(self), *final(self), new_width as int, new_height as int),
    {
        let mut next_cells = blank_columns(new_width, new_height);
        let copy_w = if self.width < new_width { self.width } else { new_width };
        let copy_h = if self.height < new_height { self.height } else { new_height };

        let mut x: usize = 0;
        while x < copy_w
            invariant
                self.wf(),
                copy_w <= self.width,
                copy_w <= new_width,
                copy_h <= self.height,
                copy_h <= new_height,
                copy_w == self.width || copy_w == new_width,
                copy_h == self.height || copy_h == new_height,
                x <= copy_w,
                shaped(columns_of(next_cells@), new_width as int, new_height as int),
                forall|cx: int, cy: int|
                    0 <= cx < new_width && 0 <= cy < new_height ==> #[trigger] columns_of(
                        next_cells@,
                    )[cx][cy] == (cx < x && cy < copy_h && self.columns()[cx][cy]),
            decreases copy_w - x,
        {
            let mut y: usize = 0;
            while y < copy_h
                invariant
                    self.wf(),
                    copy_w <= self.width,
                    copy_w <= new_width,
                    copy_h <= self.height,
                    copy_h <= new_height,
                    x < copy_w,
                    y <= copy_h,
                    shaped(columns_of(next_cells@), new_width as int, new_height as int),
                    forall|cx: int, cy: int|
                        0 <= cx < new_width && 0 <= cy < new_height ==> #[trigger] columns_of(
                            next_cells@,
                        )[cx][cy] == ((cx < x && cy < copy_h && self.columns()[cx][cy]) || (cx
                            == x && cy < y && self.columns()[cx][cy])),
                decreases copy_h - y,
            {
                let value = self.cells[x][y];
                set_cell(&mut next_cells, x, y, value);
                y = y + 1;
            }
            x = x + 1;
        }

        self.width = new_width;
        self.height = new_height;
        self.cells = next_cells;
    }

    /// Merge adjacent filled cells into rectangles.
    ///
    /// Strategy: scan the cells column by column (x outer, y inner); at the
    /// first filled cell not yet merged, expand the width first, then expand
    /// the height as long as the full rectangle is filled.
    pub fn collect_segments(&self) -> (segments: Vec<Segment>)
        requires
            self.wf(),
        ensures
            greedy_segments(*self, segments@),
            pairwise_disjoint(segments@),
            forall|i: int| 0 <= i < segments@.len() ==> segment_fits(*self, #[trigger] segments@[i]),
            forall|x: int, y: int| self.cell(x, y) <==> covered_by(segments@, x, y),
    {
        let mut segments: Vec<Segment> = Vec::new();
        let mut visited = blank_columns(self.width, self.height);
        let ghost g = *self;
        proof {
            reveal(greedy_step);
        }

        let mut x: usize = 0;
        while x < self.width
            invariant
                g == *self,
                self.wf(),
                x <= self.width,
                shaped(columns_of(visited@), self.w(), self.h()),
                forall|cx: int, cy: int|
                    0 <= cx < self.w() && 0 <= cy < self.h() ==> #[trigger] columns_of(
                        visited@,
                    )[cx][cy] == covered_by(segments@, cx, cy),
                forall|cx: int, cy: int| covered_by(segments@, cx, cy) ==> #[trigger] g.cell(cx, cy),
                forall|i: int|
                    0 <= i < segments@.len() ==> greedy_step(
                        g,
                        segments@.take(i),
                        #[trigger] segments@[i],
                    ),
                forall|cx: int, cy: int|
                    cx < x && #[trigger] g.cell(cx, cy) ==> covered_by(segments@, cx, cy),
            decreases self.width - x,
        {
            let mut y: usize = 0;
            while y < self.height
                invariant
                    g == *self,
                    self.wf(),
                    x < self.width,
                    y <= self.height,
                    shaped(columns_of(visited@), self.w(), self.h()),
                    forall|cx: int, cy: int|
                        0 <= cx < self.w() && 0 <= cy < self.h() ==> #[trigger] columns_of(
                            visited@,
                        )[cx][cy] == covered_by(segments@, cx, cy),
                    forall|cx: int, cy: int|
                        covered_by(segments@, cx, cy) ==> #[trigger] g.cell(cx, cy),
                    forall|i: int|
                        0 <= i < segments@.len() ==> greedy_step(
                            g,
                            segments@.take(i),
                            #[trigger] segments@[i],
                        ),
                    forall|cx: int, cy: int|
                        scan_before(cx, cy, x as int, y as int) && #[trigger] g.cell(cx, cy)
                            ==> covered_by(segments@, cx, cy),
                decreases self.height - y,
            {
                if self.cells[x][y] && !visited[x][y] {
                    let segment = self.grow_segment(&visited, Ghost(segments@), x, y);
                    let ghost before = segments@;
                    mark_segment(&mut visited, segment);
                    segments.push(segment);
                    proof {
                        reveal(greedy_step);
                        lemma_covered_push(before, segment);
                        assert forall|i: int| 0 <= i < segments@.len() implies greedy_step(
                            g,
                            segments@.take(i),
                            #[trigger] segments@[i],
                        ) by {
                            if i < before.len() {
                                assert(segments@.take(i) =~= before.take(i));
                            } else {
                                assert(segments@.take(i) =~= before);
                            }
                        }
                        assert forall|cx: int, cy: int|
                            covered_by(segments@, cx, cy) implies #[trigger] g.cell(cx, cy) by {
                            if segment.contains(cx, cy) {
                                assert(free_cell(g, before, cx, cy));
                            }
                        }
                    }
                }
                y = y + 1;
            }
            x = x + 1;
        }
        proof {
            lemma_greedy_partition(g, segments@);
        }
        segments
    }

    /// Build the segment that starts at the free cell `(x, y)`: widest row
    /// first, then as many full rows below it as are free.
    fn grow_segment(
        &self,
        visited: &Vec<Vec<bool>>,
        Ghost(earlier): Ghost<Seq<Segment>>,
        x: usize,
        y: usize,
    ) -> (segment: Segment)
        requires
            self.wf(),
            x < self.w(),
            y < self.h(),
            shaped(columns_of(visited@), self.w(), self.h()),
            forall|cx: int, cy: int|
                0 <= cx < self.w() && 0 <= cy < self.h() ==> #[trigger] columns_of(visited@)[cx][cy]
                    == covered_by(earlier, cx, cy),
            free_cell(*self, earlier, x as int, y as int),
            forall|cx: int, cy: int|
                scan_before(cx, cy, x as int, y as int) && #[trigger] self.cell(cx, cy)
                    ==> covered_by(earlier, cx, cy),
        ensures
            greedy_step(*self, earlier, segment),
            segment.start_x + segment.width <= self.w(),
            segment.start_y + segment.height <= self.h(),
            segment.start_x == x,
            segment.start_y == y,
    {
        let ghost g = *self;
        proof {
            reveal(greedy_step);
        }
        let start_x = x;
        let start_y = y;

        let mut width: usize = 0;
        while start_x + width < self.width && self.cells[start_x + width][start_y]
            && !visited[start_x + width][start_y]
            invariant
                g == *self,
                self.wf(),
                start_x < self.w(),
                start_y < self.h(),
                start_x + width <= self.w(),
                shaped(columns_of(visited@), self.w(), self.h()),
                forall|cx: int, cy: int|
                    0 <= cx < self.w() && 0 <= cy < self.h() ==> #[trigger] columns_of(
                        visited@,
                    )[cx][cy] == covered_by(earlier, cx, cy),
                forall|cx: int|
                    start_x <= cx < start_x + width ==> #[trigger] free_cell(
                        g,
                        earlier,
                        cx,
                        start_y as int,
                    ),
            decreases self.width - (start_x + width),
        {
            width = width + 1;
        }
        assert(width > 0) by {
            assert(columns_of(visited@)[start_x as int][start_y as int] == covered_by(
                earlier,
                start_x as int,
                start_y as int,
            ));
        }

        let mut height: usize = 1;
        let mut growing = true;
        while growing && start_y + height < self.height
            invariant
                g == *self,
                self.wf(),
                start_x + width <= self.w(),
                width > 0,
                start_y + height <= self.h(),
                height >= 1,
                shaped(columns_of(visited@), self.w(), self.h()),
                forall|cx: int, cy: int|
                    0 <= cx < self.w() && 0 <= cy < self.h() ==> #[trigger] columns_of(
                        visited@,
                    )[cx][cy] == covered_by(earlier, cx, cy),
                forall|cx: int, cy: int|
                    start_x <= cx < start_x + width && start_y <= cy < start_y + height
                        ==> #[trigger] free_cell(g, earlier, cx, cy),
                !growing ==> start_y + height < self.h() && exists|cx: int|
                    start_x <= cx < start_x + width && !#[trigger] free_cell(
                        g,
                        earlier,
                        cx,
                        start_y + height,
                    ),
            decreases self.height - (start_y + height), (if growing { 1int } else { 0int }),
        {
            let row = start_y + height;
            let mut dx: usize = 0;
            let mut row_free = true;
            while dx < width && row_free
                invariant
                    g == *self,
                    self.wf(),
                    start_x + width <= self.w(),
                    row < self.h(),
                    dx <= width,
                    shaped(columns_of(visited@), self.w(), self.h()),
                    forall|cx: int, cy: int|
                        0 <= cx < self.w() && 0 <= cy < self.h() ==> #[trigger] columns_of(
                            visited@,
                        )[cx][cy] == covered_by(earlier, cx, cy),
                    forall|cx: int|
                        start_x <= cx < start_x + dx ==> #[trigger] free_cell(
                            g,
                            earlier,
                            cx,
                            row as int,
                        ),
                    !row_free ==> dx < width && !free_cell(g, earlier, start_x + dx, row as int),
                decreases width - dx, (if row_free { 1int } else { 0int }),
            {
                if !self.cells[start_x + dx][row] || visited[start_x + dx][row] {
                    row_free = false;
                } else {
                    dx = dx + 1;
                }
            }
            if row_free {
                height = height + 1;
            } else {
                growing = false;
            }
        }

        let segment = Segment { start_x, start_y, width, height };
        proof {
            assert forall|cx: int, cy: int| segment.contains(cx, cy) implies #[trigger] free_cell(
                g,
                earlier,
                cx,
                cy,
            ) by {}
        }
        segment
    }
}

/// `after` is `before` resized to `width` x `height`: the overlapping cells
/// are kept and every other cell is empty.
pub open spec fn is_resize(before: Grid, after: Grid, width: int, height: int) -> bool {
    &&& after.wf()
    &&& after.w() == width
    &&& after.h() == height
    &&& forall|x: int, y: int|
        #[trigger] after.cell(x, y) == (before.cell(x, y) && x < width && y < height)
}

/// The cell is painted and not yet part of any of `earlier`.
pub open spec fn free_cell(g: Grid, earlier: Seq<Segment>, x: int, y: int) -> bool {
    g.cell(x, y) && !covered_by(earlier, x, y)
}

/// Some cell of the row just below `s` is not free.
pub open spec fn row_below_blocked(g: Grid, earlier: Seq<Segment>, s: Segment) -> bool {
    exists|x: int| s.start_x <= x < s.start_x + s.width && !#[trigger] free_cell(g, earlier, x, s.bottom())
}

/// `s` is the rectangle that the merge picks after `earlier`: it starts at
/// the first free cell in scan order, takes the longest free run down that
/// column's row (to the right), then as many full free rows as possible.
#[verifier::opaque]
pub open spec fn greedy_step(g: Grid, earlier: Seq<Segment>, s: Segment) -> bool {
    &&& s.width > 0
    &&& s.height > 0
    &&& free_cell(g, earlier, s.start_x as int, s.start_y as int)
    &&& forall|x: int, y: int|
        scan_before(x, y, s.start_x as int, s.start_y as int) ==> !#[trigger] free_cell(
            g,
            earlier,
            x,
            y,
        )
    &&& forall|x: int, y: int| s.contains(x, y) ==> #[trigger] free_cell(g, earlier, x, y)
    &&& !free_cell(g, earlier, s.start_x + s.width, s.start_y as int)
    &&& s.bottom() < g.h() ==> row_below_blocked(g, earlier, s)
}

/// `segments` is exactly the output of the greedy merge of `g`.
pub open spec fn greedy_segments(g: Grid, segments: Seq<Segment>) -> bool {
    &&& forall|i: int|
        0 <= i < segments.len() ==> greedy_step(g, segments.take(i), #[trigger] segments[i])
    &&& forall|x: int, y: int| #[trigger] g.cell(x, y) ==> covered_by(segments, x, y)
}

/// `s` is a non-empty rectangle inside `g` whose cells are all painted.
pub open spec fn segment_fits(g: Grid, s: Segment) -> bool {
    &&& s.width > 0
    &&& s.height > 0
    &&& s.start_x + s.width <= g.w()
    &&& s.start_y + s.height <= g.h()
    &&& forall|x: int, y: int| #[trigger] s.contains(x, y) ==> g.cell(x, y)
}

/// No cell lies in two of the segments.
pub open spec fn pairwise_disjoint(segments: Seq<Segment>) -> bool {
    forall|i: int, j: int, x: int, y: int|
        0 <= i < j < segments.len() && #[trigger] segments[i].contains(x, y)
            ==> !#[trigger] segments[j].contains(x, y)
}

/// The dimensions of a grid fit in `usize`.
pub proof fn lemma_dims_fit(g: Grid)
    ensures
        0 <= g.w() <= usize::MAX,
        0 <= g.h() <= usize::MAX,
{
}

/// The cells covered by the first `k + 1` segments are those covered by the
/// first `k` and those of segment `k`.
pub proof fn lemma_covered_take_push(segments: Seq<Segment>, k: int)
    requires
        0 <= k < segments.len(),
    ensures
        forall|x: int, y: int|
            #[trigger] covered_by(segments.take(k + 1), x, y) == (covered_by(segments.take(k), x, y)
                || segments[k].contains(x, y)),
{
    assert(segments.take(k + 1) =~= segments.take(k).push(segments[k]));
    lemma_covered_push(segments.take(k), segments[k]);
}

proof fn lemma_covered_push(before: Seq<Segment>, s: Segment)
    ensures
        forall|x: int, y: int|
            #[trigger] covered_by(before.push(s), x, y) == (covered_by(before, x, y) || s.contains(
                x,
                y,
            )),
{
    assert forall|x: int, y: int|
        #[trigger] covered_by(before.push(s), x, y) == (covered_by(before, x, y) || s.contains(
            x,
            y,
        )) by {
        if covered_by(before, x, y) {
            let i = choose|i: int| 0 <= i < before.len() && #[trigger] before[i].contains(x, y);
            assert(before.push(s)[i] == before[i]);
        }
        if s.contains(x, y) {
            assert(before.push(s)[before.len() as int] == s);
        }
        if covered_by(before.push(s), x, y) {
            let i = choose|i: int|
                0 <= i < before.push(s).len() && #[trigger] before.push(s)[i].contains(x, y);
            if i < before.len() {
                assert(before.push(s)[i] == before[i]);
            }
        }
    }
}

/// The greedy merge splits the painted cells into disjoint rectangles: every
/// segment fits inside the grid and is fully painted, no two segments share
/// a cell, and together they cover exactly the painted cells.
pub proof fn lemma_greedy_partition(g: Grid, segments: Seq<Segment>)
    requires
        greedy_segments(g, segments),
    ensures
        pairwise_disjoint(segments),
        forall|i: int| 0 <= i < segments.len() ==> segment_fits(g, #[trigger] segments[i]),
        forall|x: int, y: int| g.cell(x, y) <==> covered_by(segments, x, y),
{
    reveal(greedy_step);
    assert forall|i: int| 0 <= i < segments.len() implies segment_fits(g, #[trigger] segments[i]) by {
        let s = segments[i];
        assert(greedy_step(g, segments.take(i), s));
        assert forall|x: int, y: int| #[trigger] s.contains(x, y) implies g.cell(x, y) by {
            assert(free_cell(g, segments.take(i), x, y));
        }
        assert(free_cell(g, segments.take(i), s.start_x + s.width - 1, s.start_y as int));
        assert(free_cell(g, segments.take(i), s.start_x as int, s.start_y + s.height - 1));
    }
    assert forall|i: int, j: int, x: int, y: int|
        0 <= i < j < segments.len() && #[trigger] segments[i].contains(x, y) implies !#[trigger] segments[j].contains(
        x,
        y,
    ) by {
        if segments[j].contains(x, y) {
            assert(greedy_step(g, segments.take(j), segments[j]));
            assert(free_cell(g, segments.take(j), x, y));
            assert(segments.take(j)[i] == segments[i]);
            assert(covered_by(segments.take(j), x, y));
        }
    }
    assert forall|x: int, y: int| covered_by(segments, x, y) implies g.cell(x, y) by {
        let i = choose|i: int| 0 <= i < segments.len() && #[trigger] segments[i].contains(x, y);
        assert(segment_fits(g, segments[i]));
    }
}


/// Two segments chosen greedily after the same earlier segments are equal.
proof fn lemma_greedy_step_unique(g: Grid, earlier: Seq<Segment>, a: Segment, b: Segment)
    requires
        greedy_step(g, earlier, a),
        greedy_step(g, earlier, b),
    ensures
        a == b,
{
    reveal(greedy_step);
    // the start is the first free cell in scan order
    if scan_before(a.start_x as int, a.start_y as int, b.start_x as int, b.start_y as int) {
        assert(!free_cell(g, earlier, a.start_x as int, a.start_y as int));
    }
    if scan_before(b.start_x as int, b.start_y as int, a.start_x as int, a.start_y as int) {
        assert(!free_cell(g, earlier, b.start_x as int, b.start_y as int));
    }
    assert(a.start_x == b.start_x && a.start_y == b.start_y);
    // the width is the longest free run
    if a.width < b.width {
        assert(b.contains(a.start_x + a.width, a.start_y as int));
        assert(free_cell(g, earlier, a.start_x + a.width, a.start_y as int));
    }
    if b.width < a.width {
        assert(a.contains(b.start_x + b.width, b.start_y as int));
        assert(free_cell(g, earlier, b.start_x + b.width, b.start_y as int));
    }
    assert(a.width == b.width);
    // the height is the largest number of free rows
    if a.height < b.height {
        assert(free_cell(g, earlier, a.start_x as int, a.bottom()));
        assert(a.bottom() < g.h());
        let x = choose|x: int|
            a.start_x <= x < a.start_x + a.width && !#[trigger] free_cell(g, earlier, x, a.bottom());
        assert(b.contains(x, a.bottom()));
    }
    if b.height < a.height {
        assert(free_cell(g, earlier, b.start_x as int, b.bottom()));
        assert(b.bottom() < g.h());
        let x = choose|x: int|
            b.start_x <= x < b.start_x + b.width && !#[trigger] free_cell(g, earlier, x, b.bottom());
        assert(a.contains(x, b.bottom()));
    }
}

/// Greedy lists that agree on their first `i` segments agree on their first
/// `n` segments, for any `n` up to both lengths.
proof fn lemma_greedy_prefixes_agree(g: Grid, a: Seq<Segment>, b: Seq<Segment>, i: int, n: int)
    requires
        0 <= i <= n,
        n <= a.len(),
        n <= b.len(),
        a.take(i) == b.take(i),
        greedy_segments(g, a),
        greedy_segments(g, b),
    ensures
        a.take(n) == b.take(n),
    decreases n - i,
{
    if i < n {
        assert(greedy_step(g, a.take(i), a[i]));
        assert(greedy_step(g, b.take(i), b[i]));
        lemma_greedy_step_unique(g, a.take(i), a[i], b[i]);
        assert(a.take(i + 1) =~= a.take(i).push(a[i]));
        assert(b.take(i + 1) =~= b.take(i).push(b[i]));
        lemma_greedy_prefixes_agree(g, a, b, i + 1, n);
    }
}

/// The greedy merge has exactly one possible outcome: two segment lists that
/// both satisfy the merge's contract for the same grid are equal.
pub proof fn lemma_greedy_unique(g: Grid, a: Seq<Segment>, b: Seq<Segment>)
    requires
        greedy_segments(g, a),
        greedy_segments(g, b),
    ensures
        a == b,
{
    reveal(greedy_step);
    let n: int = if a.len() < b.len() { a.len() as int } else { b.len() as int };
    assert(a.take(0) =~= b.take(0));
    lemma_greedy_prefixes_agree(g, a, b, 0, n);
    if a.len() < b.len() {
        assert(a.take(n) =~= a);
        let s = b[n];
        assert(greedy_step(g, b.take(n), s));
        assert(g.cell(s.start_x as int, s.start_y as int));
        assert(covered_by(a, s.start_x as int, s.start_y as int));
    }
    if b.len() < a.len() {
        assert(b.take(n) =~= b);
        let s = a[n];
        assert(greedy_step(g, a.take(n), s));
        assert(g.cell(s.start_x as int, s.start_y as int));
        assert(covered_by(b, s.start_x as int, s.start_y as int));
    }
    assert(a.take(n) =~= a);
    assert(b.take(n) =~= b);
}

/// Resizing keeps the overlap: growing a grid and then shrinking it back to
/// its former size gives back the former cells.
pub proof fn lemma_resize_round_trip(g0: Grid, g1: Grid, g2: Grid, width: int, height: int)
    requires
        g0.wf(),
        width >= g0.w(),
        height >= g0.h(),
        is_resize(g0, g1, width, height),
        is_resize(g1, g2, g0.w(), g0.h()),
    ensures
        g2.w() == g0.w(),
        g2.h() == g0.h(),
        g2.columns() == g0.columns(),
{
    assert forall|x: int| 0 <= x < g0.w() implies #[trigger] g2.columns()[x] == g0.columns()[x] by {
        assert forall|y: int| 0 <= y < g0.h() implies g2.columns()[x][y] == g0.columns()[x][y] by {
            assert(g2.cell(x, y) == g1.cell(x, y));
            assert(g1.cell(x, y) == g0.cell(x, y));
        }
        assert(g2.columns()[x] =~= g0.columns()[x]);
    }
    assert(g2.columns() =~= g0.columns());
}

/// A change made to a grid after it was created.
pub enum GridEdit {
    /// `resize_preserve(width, height)`.
    Resize(usize, usize),
    /// Writing `value` into cell `(x, y)` of the storage that `cells_mut`
    /// hands out, inside the grid.
    Write(usize, usize, bool),
}

/// `after` is `before` changed by `edit`, as `resize_preserve` and
/// `cells_mut` describe it.
pub open spec fn edited(before: Grid, after: Grid, edit: GridEdit) -> bool {
    match edit {
        GridEdit::Resize(width, height) => is_resize(before, after, width as int, height as int),
        GridEdit::Write(x, y, value) => {
            &&& x < before.w()
            &&& y < before.h()
            &&& after.w() == before.w()
            &&& after.h() == before.h()
            &&& after.columns() == before.columns().update(
                x as int,
                before.columns()[x as int].update(y as int, value),
            )
        },
    }
}

/// The size last given: that of the last resize in `edits`, or the size the
/// grid was created with.
pub open spec fn last_size(width: usize, height: usize, edits: Seq<GridEdit>) -> (int, int)
    decreases edits.len(),
{
    if edits.len() == 0 {
        (width as int, height as int)
    } else {
        match edits.last() {
            GridEdit::Resize(w, h) => (w as int, h as int),
            GridEdit::Write(..) => last_size(width, height, edits.drop_last()),
        }
    }
}

/// Over any sequence of resizes and cell writes after `Grid::new(width,
/// height)`, the grid's width and height are the last ones given, and its
/// storage has that many columns of that many cells each (a width of 0
/// included).
pub proof fn lemma_size_is_last_set(
    width: usize,
    height: usize,
    grids: Seq<Grid>,
    edits: Seq<GridEdit>,
)
    requires
        grids.len() == edits.len() + 1,
        grids[0].wf(),
        grids[0].w() == width,
        grids[0].h() == height,
        forall|i: int| 0 <= i < edits.len() ==> edited(#[trigger] grids[i], grids[i + 1], edits[i]),
    ensures
        grids.last().wf(),
        (grids.last().w(), grids.last().h()) == last_size(width, height, edits),
    decreases edits.len(),
{
    if edits.len() > 0 {
        let n = edits.len() - 1;
        let gs = grids.drop_last();
        let es = edits.drop_last();
        assert forall|i: int| 0 <= i < es.len() implies edited(#[trigger] gs[i], gs[i + 1], es[i]) by {
            assert(gs[i] == grids[i]);
            assert(gs[i + 1] == grids[i + 1]);
            assert(edited(grids[i], grids[i + 1], edits[i]));
        }
        lemma_size_is_last_set(width, height, gs, es);
        assert(gs.last() == grids[n]);
        assert(edited(grids[n], grids[n + 1], edits[n]));
        let before = grids[n];
        let after = grids[n + 1];
        if let GridEdit::Write(x, y, value) = edits[n] {
            assert forall|cx: int| 0 <= cx < after.w() implies #[trigger] after.columns()[cx].len()
                == after.h() by {
                if cx != x {
                    assert(after.columns()[cx] == before.columns()[cx]);
                }
            }
        }
    }
}

/// Resizing a grid to its own size changes none of its cells.
pub proof fn lemma_resize_same_size(g0: Grid, g1: Grid)
    requires
        g0.wf(),
        is_resize(g0, g1, g0.w(), g0.h()),
    ensures
        g1.columns() == g0.columns(),
{
    assert forall|x: int| 0 <= x < g0.w() implies #[trigger] g1.columns()[x] == g0.columns()[x] by {
        assert forall|y: int| 0 <= y < g0.h() implies g1.columns()[x][y] == g0.columns()[x][y] by {
            assert(g1.cell(x, y) == g0.cell(x, y));
        }
        assert(g1.columns()[x] =~= g0.columns()[x]);
    }
    assert(g1.columns() =~= g0.columns());
}

/// Mark every cell of `segment` in `visited`.
fn mark_segment(visited: &mut Vec<Vec<bool>>, segment: Segment)
    requires
        segment.start_x + segment.width <= old(visited)@.len() <= usize::MAX,
        segment.start_y + segment.height <= usize::MAX,
        forall|x: int|
            segment.start_x <= x < segment.start_x + segment.width ==> segment.start_y
                + segment.height <= #[trigger] old(visited)@[x]@.len(),
    ensures
        final(visited)@.len() == old(visited)@.len(),
        forall|x: int|
            0 <= x < old(visited)@.len() ==> #[trigger] final(visited)@[x]@.len() == old(
                visited,
            )@[x]@.len(),
        forall|x: int, y: int|
            0 <= x < old(visited)@.len() && 0 <= y < old(visited)@[x]@.len() ==> #[trigger] columns_of(
                final(visited)@,
            )[x][y] == (columns_of(old(visited)@)[x][y] || segment.contains(x, y)),
{
    let ghost start = visited@;
    let mut dx: usize = 0;
    while dx < segment.width
        invariant
            segment.start_x + segment.width <= start.len() <= usize::MAX,
            segment.start_y + segment.height <= usize::MAX,
            forall|x: int|
                segment.start_x <= x < segment.start_x + segment.width ==> segment.start_y
                    + segment.height <= #[trigger] start[x]@.len(),
            dx <= segment.width,
            visited@.len() == start.len(),
            forall|x: int| 0 <= x < start.len() ==> #[trigger] visited@[x]@.len() == start[x]@.len(),
            forall|x: int, y: int|
                0 <= x < start.len() && 0 <= y < start[x]@.len() ==> #[trigger] columns_of(
                    visited@,
                )[x][y] == (columns_of(start)[x][y] || (segment.contains(x, y) && x
                    < segment.start_x + dx)),
        decreases segment.width - dx,
    {
        let mut dy: usize = 0;
        while dy < segment.height
            invariant
                segment.start_x + segment.width <= start.len() <= usize::MAX,
                segment.start_y + segment.height <= usize::MAX,
                forall|x: int|
                    segment.start_x <= x < segment.start_x + segment.width ==> segment.start_y
                        + segment.height <= #[trigger] start[x]@.len(),
                dx < segment.width,
                dy <= segment.height,
                visited@.len() == start.len(),
                forall|x: int|
                    0 <= x < start.len() ==> #[trigger] visited@[x]@.len() == start[x]@.len(),
                forall|x: int, y: int|
                    0 <= x < start.len() && 0 <= y < start[x]@.len() ==> #[trigger] columns_of(
                        visited@,
                    )[x][y] == (columns_of(start)[x][y] || (segment.contains(x, y) && (x
                        < segment.start_x + dx || (x == segment.start_x + dx && y
                        < segment.start_y + dy)))),
            decreases segment.height - dy,
        {
            assert(visited@[(segment.start_x + dx) as int]@.len() == start[(segment.start_x
                + dx) as int]@.len());
            set_cell(visited, segment.start_x + dx, segment.start_y + dy, true);
            dy = dy + 1;
        }
        dx = dx + 1;
    }
}

} // verus!
