//! The integer side of importing a scene: the grid unit as the greatest
//! common divisor of the scaled sizes, the grid's extent, and filling the
//! grid from the imported segments.
use vstd::prelude::*;

use crate::grid::{covered_by, greedy_segments, pairwise_disjoint, Grid, Segment};
use crate::scene_lines::{Failure, ImportError};
use crate::text::{chars_of, to_string};

verus! {

/// The greatest common divisor, by Euclid's algorithm.
pub open spec fn gcd(a: nat, b: nat) -> nat
    decreases b,
{
    if b == 0 {
        a
    } else {
        gcd(b, a % b)
    }
}

/// The absolute value.
pub open spec fn abs(v: int) -> nat {
    if v < 0 {
        (-v) as nat
    } else {
        v as nat
    }
}

/// The greatest common divisor of the absolute values of `left` and
/// `right`.
pub fn gcd_i64(left: i64, right: i64) -> (g: i64)
    requires
        left != i64::MIN,
        right != i64::MIN,
    ensures
        g >= 0,
        g as nat == gcd(abs(left as int), abs(right as int)),
{
    let mut left: i64 = if left < 0 {
        -left
    } else {
        left
    };
    let mut right: i64 = if right < 0 {
        -right
    } else {
        right
    };
    let ghost goal = gcd(left as nat, right as nat);
    while right != 0
        invariant
            left >= 0,
            right >= 0,
            gcd(left as nat, right as nat) == goal,
        decreases right,
    {
        let remainder = left % right;
        left = right;
        right = remainder;
    }
    left
}

/// The positive values of `values`, in order.
pub open spec fn positives(values: Seq<i64>) -> Seq<i64>
    decreases values.len(),
{
    if values.len() == 0 {
        seq![]
    } else {
        let rest = positives(values.drop_last());
        if values.last() > 0 {
            rest.push(values.last())
        } else {
            rest
        }
    }
}

/// The greatest common divisor of all of `values`, folded from the first.
pub open spec fn gcd_all(values: Seq<i64>) -> nat
    decreases values.len(),
{
    if values.len() <= 1 {
        if values.len() == 1 {
            abs(values[0] as int)
        } else {
            0
        }
    } else {
        gcd(gcd_all(values.drop_last()), abs(values.last() as int))
    }
}

/// The common unit of the scaled sizes: the greatest common divisor of the
/// positive ones, or nothing when none is positive.
pub fn common_unit(values: &Vec<i64>) -> (unit: Option<i64>)
    ensures
        match unit {
            Some(u) => positives(values@).len() > 0 && u as nat == gcd_all(positives(values@)),
            None => positives(values@).len() == 0,
        },
{
    let mut result: Option<i64> = None;
    let mut i: usize = 0;
    while i < values.len()
        invariant
            i <= values@.len(),
            match result {
                Some(u) => positives(values@.take(i as int)).len() > 0 && u >= 0 && u as nat
                    == gcd_all(positives(values@.take(i as int))),
                None => positives(values@.take(i as int)).len() == 0,
            },
        decreases values@.len() - i,
    {
        let v = values[i];
        proof {
            assert(values@.take(i + 1).drop_last() =~= values@.take(i as int));
        }
        if v > 0 {
            let ghost before = positives(values@.take(i as int));
            result = match result {
                None => Some(v),
                Some(u) => {
                    proof {
                        assert(positives(values@.take(i + 1)) == before.push(v));
                        assert(before.push(v).drop_last() =~= before);
                    }
                    Some(gcd_i64(u, v))
                },
            };
            proof {
                if before.len() == 0 {
                    assert(positives(values@.take(i + 1)) =~= seq![v]);
                }
            }
        }
        i = i + 1;
    }
    assert(values@.take(i as int) =~= values@);
    result
}

/// `g` divides `a`, written as a multiple.
proof fn lemma_multiple_divides(a: int, g: int, k: int)
    requires
        g > 0,
        a == k * g,
    ensures
        a % g == 0,
{
    vstd::arithmetic::div_mod::lemma_mod_multiples_basic(k, g);
}

/// A positive divisor `g` of `b` and of `a % b` divides `a`.
proof fn lemma_divides_euclid(a: int, b: int, g: int)
    requires
        g > 0,
        b > 0,
        a >= 0,
        b % g == 0,
        (a % b) % g == 0,
    ensures
        a % g == 0,
{
    vstd::arithmetic::div_mod::lemma_fundamental_div_mod(a, b);
    vstd::arithmetic::div_mod::lemma_fundamental_div_mod(b, g);
    vstd::arithmetic::div_mod::lemma_fundamental_div_mod(a % b, g);
    let q = a / b;
    let kb = b / g;
    let kr = (a % b) / g;
    assert(a == (q * kb + kr) * g) by (nonlinear_arith)
        requires
            a == b * q + a % b,
            b == g * kb,
            a % b == g * kr,
    ;
    lemma_multiple_divides(a, g, q * kb + kr);
}

/// Euclid's algorithm gives a common divisor, positive when either number
/// is.
pub proof fn lemma_gcd_divides(a: nat, b: nat)
    requires
        a > 0 || b > 0,
    ensures
        gcd(a, b) > 0,
        a % gcd(a, b) == 0,
        b % gcd(a, b) == 0,
    decreases b,
{
    if b == 0 {
        lemma_multiple_divides(a as int, a as int, 1);
        assert(0int % (a as int) == 0);
    } else {
        lemma_gcd_divides(b, a % b);
        let g = gcd(b, a % b);
        lemma_divides_euclid(a as int, b as int, g as int);
    }
}

/// Divisibility carries over: `g | h` and `h | v` give `g | v`.
proof fn lemma_divides_trans(g: int, h: int, v: int)
    requires
        g > 0,
        h > 0,
        h % g == 0,
        v % h == 0,
    ensures
        v % g == 0,
{
    vstd::arithmetic::div_mod::lemma_fundamental_div_mod(h, g);
    vstd::arithmetic::div_mod::lemma_fundamental_div_mod(v, h);
    let k1 = h / g;
    let k2 = v / h;
    assert(v == (k2 * k1) * g) by (nonlinear_arith)
        requires
            h == g * k1,
            v == h * k2,
    ;
    lemma_multiple_divides(v, g, k2 * k1);
}

/// The common divisor of positive values divides each of them.
proof fn lemma_gcd_all_divides(vs: Seq<i64>)
    requires
        vs.len() > 0,
        forall|i: int| 0 <= i < vs.len() ==> #[trigger] vs[i] > 0,
    ensures
        gcd_all(vs) > 0,
        forall|i: int| 0 <= i < vs.len() ==> (#[trigger] vs[i] as int) % (gcd_all(vs) as int) == 0,
    decreases vs.len(),
{
    if vs.len() == 1 {
        lemma_multiple_divides(vs[0] as int, vs[0] as int, 1);
    } else {
        let d = vs.drop_last();
        assert forall|i: int| 0 <= i < d.len() implies #[trigger] d[i] > 0 by {
            assert(d[i] == vs[i]);
        }
        lemma_gcd_all_divides(d);
        let h = gcd_all(d);
        let last = abs(vs.last() as int);
        lemma_gcd_divides(h, last);
        let g = gcd(h, last);
        assert forall|i: int| 0 <= i < vs.len() implies (#[trigger] vs[i] as int) % (g as int) == 0 by {
            if i < vs.len() - 1 {
                assert(vs[i] == d[i]);
                lemma_divides_trans(g as int, h as int, vs[i] as int);
            }
        }
    }
}

/// The positive values are among `values`, and every positive value of
/// `values` is among them.
proof fn lemma_positives(values: Seq<i64>)
    ensures
        forall|j: int| 0 <= j < positives(values).len() ==> #[trigger] positives(values)[j] > 0,
        forall|i: int|
            0 <= i < values.len() && #[trigger] values[i] > 0 ==> exists|j: int|
                0 <= j < positives(values).len() && positives(values)[j] == values[i],
    decreases values.len(),
{
    if values.len() > 0 {
        let d = values.drop_last();
        lemma_positives(d);
        let p = positives(values);
        let pd = positives(d);
        assert forall|i: int| 0 <= i < values.len() && #[trigger] values[i] > 0 implies exists|j: int|
            0 <= j < p.len() && p[j] == values[i] by {
            if i < values.len() - 1 {
                assert(d[i] == values[i]);
                let j = choose|j: int| 0 <= j < pd.len() && pd[j] == d[i];
                assert(p[j] == pd[j]);
            } else {
                assert(p[p.len() - 1] == values[i]);
            }
        }
    }
}

/// The common unit of the scaled sizes is a positive divisor of every
/// positive one: each positive size is a whole number of units.
pub proof fn lemma_common_unit_divides(values: Seq<i64>)
    requires
        positives(values).len() > 0,
    ensures
        gcd_all(positives(values)) > 0,
        forall|i: int|
            0 <= i < values.len() && #[trigger] values[i] > 0 ==> (values[i] as int) % (gcd_all(
                positives(values),
            ) as int) == 0,
{
    lemma_positives(values);
    let p = positives(values);
    lemma_gcd_all_divides(p);
    assert forall|i: int| 0 <= i < values.len() && #[trigger] values[i] > 0 implies (values[i] as int)
        % (gcd_all(p) as int) == 0 by {
        let j = choose|j: int| 0 <= j < p.len() && p[j] == values[i];
        assert(p[j] > 0);
    }
}

/// Whether an imported scene is set to have back planes: the setting its
/// metadata records, if it records one, else whether a `BackPlanes`
/// container was found in it.
pub fn imported_backplanes(recorded: Option<bool>, has_container: bool) -> (r: bool)
    ensures
        r == match recorded {
            Some(setting) => setting,
            None => has_container,
        },
{
    match recorded {
        Some(setting) => setting,
        None => has_container,
    }
}

/// The rightmost column end of `segments` (0 for none).
pub open spec fn extent_x(segments: Seq<Segment>) -> nat
    decreases segments.len(),
{
    if segments.len() == 0 {
        0
    } else {
        let rest = extent_x(segments.drop_last());
        let end = (segments.last().start_x + segments.last().width) as nat;
        if end > rest {
            end
        } else {
            rest
        }
    }
}

/// The lowest row end of `segments` (0 for none).
pub open spec fn extent_y(segments: Seq<Segment>) -> nat
    decreases segments.len(),
{
    if segments.len() == 0 {
        0
    } else {
        let rest = extent_y(segments.drop_last());
        let end = (segments.last().start_y + segments.last().height) as nat;
        if end > rest {
            end
        } else {
            rest
        }
    }
}

/// No segment's end overflows `usize`.
pub open spec fn ends_fit(segments: Seq<Segment>) -> bool {
    forall|i: int|
        0 <= i < segments.len() ==> #[trigger] segments[i].start_x + segments[i].width
            <= usize::MAX && segments[i].start_y + segments[i].height <= usize::MAX
}

/// The extent of `segments`: the largest column end and row end.
pub fn segments_extent(segments: &Vec<Segment>) -> (extent: (usize, usize))
    requires
        ends_fit(segments@),
    ensures
        extent.0 == extent_x(segments@),
        extent.1 == extent_y(segments@),
{
    let mut w: usize = 0;
    let mut h: usize = 0;
    let mut i: usize = 0;
    while i < segments.len()
        invariant
            i <= segments@.len(),
            ends_fit(segments@),
            w == extent_x(segments@.take(i as int)),
            h == extent_y(segments@.take(i as int)),
        decreases segments@.len() - i,
    {
        let s = segments[i];
        assert(segments@.take(i + 1).drop_last() =~= segments@.take(i as int));
        assert(segments@.take(i + 1).last() == s);
        let end_x = s.start_x + s.width;
        let end_y = s.start_y + s.height;
        if end_x > w {
            w = end_x;
        }
        if end_y > h {
            h = end_y;
        }
        i = i + 1;
    }
    assert(segments@.take(i as int) =~= segments@);
    (w, h)
}

/// The message for a cell outside the grid.
pub open spec fn bounds_message() -> Seq<char> {
    "Imported scene contains cells outside the declared grid bounds"@
}

/// The message for a cell painted twice.
pub open spec fn overlap_message() -> Seq<char> {
    "Imported scene contains overlapping wall segments"@
}

/// Filling a `width` x `height` grid with `segments`, from segment `k`,
/// column offset `dx` and row offset `dy` on (segment by segment, column by
/// column, row by row): the message of the first cell that lies outside the
/// grid or was already painted, if any.
pub open spec fn fill_error(
    width: int,
    height: int,
    segments: Seq<Segment>,
    k: int,
    dx: int,
    dy: int,
) -> Option<Seq<char>>
    decreases segments.len() - k, (if 0 <= k < segments.len() {
        segments[k].width - dx
    } else {
        0
    }), (if 0 <= k < segments.len() {
        segments[k].height - dy
    } else {
        0
    }),
{
    if k < 0 || k >= segments.len() || dx < 0 || dy < 0 {
        None
    } else {
        let s = segments[k];
        if dx >= s.width {
            fill_error(width, height, segments, k + 1, 0, 0)
        } else if dy >= s.height {
            fill_error(width, height, segments, k, dx + 1, 0)
        } else {
            let x = s.start_x + dx;
            let y = s.start_y + dy;
            if x >= width || y >= height {
                Some(bounds_message())
            } else if covered_by(segments.take(k), x, y) {
                Some(overlap_message())
            } else {
                fill_error(width, height, segments, k, dx, dy + 1)
            }
        }
    }
}

/// Every cell of every segment lies inside a `width` x `height` grid.
pub open spec fn inside(width: int, height: int, segments: Seq<Segment>) -> bool {
    forall|i: int|
        0 <= i < segments.len() ==> #[trigger] segments[i].start_x + segments[i].width <= width
            && segments[i].start_y + segments[i].height <= height
}

/// Fill a `width` x `height` grid with the cells of `segments`. A cell
/// outside the grid, or one that two segments share, is refused; each cell
/// is tested against the bounds before the next one is computed, so no
/// segment's end is ever computed.
pub fn build_grid(width: usize, height: usize, segments: &Vec<Segment>) -> (r: Result<Grid, ImportError>)
    ensures
        match fill_error(width as int, height as int, segments@, 0, 0, 0) {
            Some(m) => r matches Err(e) && e@ == Failure::Invalid(m),
            None => r matches Ok(g) && g.wf() && g.w() == width && g.h() == height && forall|
                x: int,
                y: int,
            | #[trigger] g.cell(x, y) == covered_by(segments@, x, y),
        },
{
    let mut grid = Grid::new(width, height);
    let ghost total = fill_error(width as int, height as int, segments@, 0, 0, 0);
    let mut k: usize = 0;
    while k < segments.len()
        invariant
            k <= segments@.len(),
            grid.wf(),
            grid.w() == width,
            grid.h() == height,
            fill_error(width as int, height as int, segments@, k as int, 0, 0) == total,
            total == fill_error(width as int, height as int, segments@, 0, 0, 0),
            forall|x: int, y: int| #[trigger] grid.cell(x, y) == covered_by(segments@.take(k as int), x, y),
        decreases segments@.len() - k,
    {
        let s = segments[k];
        let mut dx: usize = 0;
        while dx < s.width
            invariant
                k < segments@.len(),
                s == segments@[k as int],
                dx <= s.width,
                dx == 0 || s.height == 0 || s.start_x + dx <= width,
                grid.wf(),
                grid.w() == width,
                grid.h() == height,
                fill_error(width as int, height as int, segments@, k as int, dx as int, 0) == total,
                total == fill_error(width as int, height as int, segments@, 0, 0, 0),
                forall|x: int, y: int|
                    #[trigger] grid.cell(x, y) == (covered_by(segments@.take(k as int), x, y) || (
                    s.contains(x, y) && x < s.start_x + dx)),
            decreases s.width - dx,
        {
            let mut dy: usize = 0;
            while dy < s.height
                invariant
                    k < segments@.len(),
                    s == segments@[k as int],
                    dx < s.width,
                    dy <= s.height,
                    dx == 0 || s.height == 0 || s.start_x + dx <= width,
                    dy == 0 || (s.start_x + dx < width && s.start_y + dy <= height),
                    grid.wf(),
                    grid.w() == width,
                    grid.h() == height,
                    fill_error(width as int, height as int, segments@, k as int, dx as int, dy as int)
                        == total,
                    total == fill_error(width as int, height as int, segments@, 0, 0, 0),
                    forall|x: int, y: int|
                        #[trigger] grid.cell(x, y) == (covered_by(segments@.take(k as int), x, y)
                            || (s.contains(x, y) && (x < s.start_x + dx || (x == s.start_x + dx && y
                            < s.start_y + dy)))),
                decreases s.height - dy,
            {
                let x = s.start_x + dx;
                let y = s.start_y + dy;
                if x >= grid.width() || y >= grid.height() {
                    return Err(
                        ImportError::Invalid(
                            to_string(
                                &chars_of(
                                    "Imported scene contains cells outside the declared grid bounds",
                                ),
                            ),
                        ),
                    );
                }
                if grid.is_filled(x, y) {
                    return Err(
                        ImportError::Invalid(
                            to_string(&chars_of("Imported scene contains overlapping wall segments")),
                        ),
                    );
                }
                grid.set(x, y, true);
                dy = dy + 1;
            }
            dx = dx + 1;
        }
        proof {
            crate::grid::lemma_covered_take_push(segments@, k as int);
        }
        k = k + 1;
    }
    assert(segments@.take(k as int) =~= segments@);
    Ok(grid)
}

/// The size of an imported grid: the recorded one, or else the extent of
/// the segments.
pub open spec fn import_size(dimensions: Option<(usize, usize)>, segments: Seq<Segment>) -> (int, int) {
    match dimensions {
        Some(d) => (d.0 as int, d.1 as int),
        None => (extent_x(segments) as int, extent_y(segments) as int),
    }
}

/// The grid of an imported scene: of the recorded size (`dimensions`), or
/// else just large enough for the segments, filled with the segments'
/// cells. A cell outside the grid, or one that two segments share, is
/// refused.
pub fn import_grid(dimensions: Option<(usize, usize)>, segments: &Vec<Segment>) -> (r: Result<
    Grid,
    ImportError,
>)
    requires
        dimensions is None ==> ends_fit(segments@),
    ensures
        ({
            let (w, h) = import_size(dimensions, segments@);
            match fill_error(w, h, segments@, 0, 0, 0) {
                Some(m) => r matches Err(e) && e@ == Failure::Invalid(m),
                None => r matches Ok(g) && g.wf() && g.w() == w && g.h() == h && forall|
                    x: int,
                    y: int,
                | #[trigger] g.cell(x, y) == covered_by(segments@, x, y),
            }
        }),
{
    let (width, height) = match dimensions {
        Some(d) => d,
        None => segments_extent(segments),
    };
    build_grid(width, height, segments)
}

/// Segments that lie inside the grid and share no cell fill it without a
/// refusal, from any point of the filling on.
proof fn lemma_fill_from_ok(
    width: int,
    height: int,
    segments: Seq<Segment>,
    k: int,
    dx: int,
    dy: int,
)
    requires
        inside(width, height, segments),
        pairwise_disjoint(segments),
        0 <= k,
        0 <= dx,
        0 <= dy,
    ensures
        fill_error(width, height, segments, k, dx, dy) is None,
    decreases segments.len() - k, (if 0 <= k < segments.len() {
        segments[k].width - dx
    } else {
        0
    }), (if 0 <= k < segments.len() {
        segments[k].height - dy
    } else {
        0
    }),
{
    if k < segments.len() {
        let s = segments[k];
        if dx >= s.width {
            lemma_fill_from_ok(width, height, segments, k + 1, 0, 0);
        } else if dy >= s.height {
            lemma_fill_from_ok(width, height, segments, k, dx + 1, 0);
        } else {
            let x = s.start_x + dx;
            let y = s.start_y + dy;
            if covered_by(segments.take(k), x, y) {
                let i = choose|i: int|
                    0 <= i < segments.take(k).len() && #[trigger] segments.take(k)[i].contains(x, y);
                assert(segments[i].contains(x, y));
                assert(segments[k].contains(x, y));
            }
            lemma_fill_from_ok(width, height, segments, k, dx, dy + 1);
        }
    }
}

/// Exporting and importing keeps the painting: the segments that the merge
/// makes of a grid fill a grid of the same size without a refusal, and
/// they cover exactly the painted cells.
pub proof fn lemma_merge_fills_back(g: Grid, segments: Seq<Segment>)
    requires
        g.wf(),
        greedy_segments(g, segments),
    ensures
        ends_fit(segments),
        fill_error(g.w(), g.h(), segments, 0, 0, 0) is None,
        forall|x: int, y: int| covered_by(segments, x, y) == g.cell(x, y),
{
    crate::grid::lemma_greedy_partition(g, segments);
    assert forall|i: int| 0 <= i < segments.len() implies #[trigger] segments[i].start_x
        + segments[i].width <= g.w() && segments[i].start_y + segments[i].height <= g.h() by {
        assert(crate::grid::segment_fits(g, segments[i]));
    }
    crate::grid::lemma_dims_fit(g);
    lemma_fill_from_ok(g.w(), g.h(), segments, 0, 0, 0);
}

/// The extent of the segments bounds them all and is reached: every
/// segment ends at or before it, in both directions, and unless there are
/// no segments some segment ends exactly at it.
pub proof fn lemma_extent_is_the_largest_end(segments: Seq<Segment>)
    ensures
        forall|i: int|
            0 <= i < segments.len() ==> #[trigger] segments[i].start_x + segments[i].width
                <= extent_x(segments) && segments[i].start_y + segments[i].height <= extent_y(
                segments,
            ),
        segments.len() == 0 ==> extent_x(segments) == 0 && extent_y(segments) == 0,
        segments.len() > 0 ==> exists|i: int|
            0 <= i < segments.len() && #[trigger] segments[i].start_x + segments[i].width
                == extent_x(segments),
        segments.len() > 0 ==> exists|i: int|
            0 <= i < segments.len() && #[trigger] segments[i].start_y + segments[i].height
                == extent_y(segments),
    decreases segments.len(),
{
    if segments.len() > 0 {
        let d = segments.drop_last();
        let n = segments.len() - 1;
        lemma_extent_is_the_largest_end(d);
        assert forall|i: int| 0 <= i < segments.len() implies #[trigger] segments[i].start_x
            + segments[i].width <= extent_x(segments) && segments[i].start_y + segments[i].height
            <= extent_y(segments) by {
            if i < n {
                assert(segments[i] == d[i]);
            }
        }
        if d.len() == 0 || segments[n].start_x + segments[n].width >= extent_x(d) {
            assert(segments[n].start_x + segments[n].width == extent_x(segments));
        } else {
            let j = choose|j: int| 0 <= j < d.len() && #[trigger] d[j].start_x + d[j].width
                == extent_x(d);
            assert(segments[j] == d[j]);
            assert(segments[j].start_x + segments[j].width == extent_x(segments));
        }
        if d.len() == 0 || segments[n].start_y + segments[n].height >= extent_y(d) {
            assert(segments[n].start_y + segments[n].height == extent_y(segments));
        } else {
            let j = choose|j: int| 0 <= j < d.len() && #[trigger] d[j].start_y + d[j].height
                == extent_y(d);
            assert(segments[j] == d[j]);
            assert(segments[j].start_y + segments[j].height == extent_y(segments));
        }
    }
}

/// Without a recorded size, segments that share no cell are imported
/// without a refusal, into a grid whose painted cells are exactly theirs.
pub proof fn lemma_disjoint_import_without_size(segments: Seq<Segment>)
    requires
        pairwise_disjoint(segments),
    ensures
        fill_error(
            import_size(None, segments).0,
            import_size(None, segments).1,
            segments,
            0,
            0,
            0,
        ) is None,
{
    lemma_extent_is_the_largest_end(segments);
    lemma_fill_from_ok(extent_x(segments) as int, extent_y(segments) as int, segments, 0, 0, 0);
}

} // verus!
