//! Filling the interior of the thermometer up to the level that the progress
//! calls for.

use crate::bounds::{
    bounds_of, dense, find_bounds, increasing, lemma_repaint_keeps_bounds,
    lemma_repaint_narrows_bounds, lemma_scan_settled, repainted_inside,
};
use crate::grid::{grid_height, grid_width, read_pixel, write_pixel, PixelGrid};
use vstd::arithmetic::div_mod::{lemma_div_is_ordered, lemma_hoist_over_denominator};
use vstd::prelude::*;

verus! {

/// Column `x` of a grid as a scan line, from the top row down.
pub open spec fn column_line(grid: PixelGrid, x: int) -> Seq<(u32, [u8; 4])> {
    Seq::new(grid_height(grid) as nat, |y: int| (y as u32, grid.pixel_at(x, y)))
}

/// Row `y` of a grid as a scan line, from the left column on.
pub open spec fn row_line(grid: PixelGrid, y: int) -> Seq<(u32, [u8; 4])> {
    Seq::new(grid_width(grid) as nat, |x: int| (x as u32, grid.pixel_at(x, y)))
}

/// How many rows at the top of the interior stay empty: the share of the
/// span from `top` to `bottom` that is still missing towards the goal,
/// rounded down, and none once the goal is reached.
pub open spec fn empty_rows(top: int, bottom: int, goal: int, current: int) -> int {
    if current < goal && top <= bottom {
        ((bottom - top) * (goal - current)) / goal
    } else {
        0
    }
}

/// The rows that the outline encloses, found down the middle column.
pub open spec fn inner_rows(grid: PixelGrid, edge: [u8; 4]) -> (int, int) {
    bounds_of(column_line(grid, grid_width(grid) as int / 2), edge)
}

/// Whether row `y` lies in the part of the interior that gets filled.
pub open spec fn filled_row(
    grid: PixelGrid,
    edge: [u8; 4],
    goal: int,
    current: int,
    y: int,
) -> bool {
    let rows = inner_rows(grid, edge);
    rows.0 + empty_rows(rows.0, rows.1, goal, current) <= y < rows.1
}

/// Whether the pixel at column `x` of row `y` gets the fill colour: its row
/// is filled, the row has an interior that holds the column, and the pixel is
/// fully transparent.
pub open spec fn painted(
    grid: PixelGrid,
    edge: [u8; 4],
    goal: int,
    current: int,
    x: int,
    y: int,
) -> bool {
    let columns = bounds_of(row_line(grid, y), edge);
    &&& filled_row(grid, edge, goal, current, y)
    &&& columns.1 != 0
    &&& columns.0 <= x < columns.1
    &&& grid.pixel_at(x, y)[3] == 0
}

/// Whether `after` is `before` with the thermometer filled: every painted
/// pixel has the fill colour and all else is as it was.
pub open spec fn rendered(
    before: PixelGrid,
    after: PixelGrid,
    edge: [u8; 4],
    fill: [u8; 4],
    goal: int,
    current: int,
) -> bool {
    &&& grid_width(after) == grid_width(before)
    &&& grid_height(after) == grid_height(before)
    &&& forall|x: int, y: int|
        (#[trigger] after.pixel_at(x, y)) == if painted(before, edge, goal, current, x, y) {
            fill
        } else {
            before.pixel_at(x, y)
        }
}

/// How many rows of the interior get filled.
pub open spec fn filled_rows(grid: PixelGrid, edge: [u8; 4], goal: int, current: int) -> int {
    let rows = inner_rows(grid, edge);
    if rows.0 <= rows.1 {
        rows.1 - rows.0 - empty_rows(rows.0, rows.1, goal, current)
    } else {
        0
    }
}

/// The empty part of a span shrinks, or stays, as the amount grows.
pub proof fn lemma_empty_rows_shrink(top: int, bottom: int, goal: u32, lower: u32, higher: u32)
    requires
        lower <= higher,
    ensures
        0 <= empty_rows(top, bottom, goal as int, higher as int) <= empty_rows(
            top,
            bottom,
            goal as int,
            lower as int,
        ),
        top <= bottom ==> empty_rows(top, bottom, goal as int, lower as int) <= bottom - top,
{
    if lower < goal && top <= bottom {
        let span = bottom - top;
        let g = goal as int;
        let a = goal - higher;
        let b = goal - lower;
        assert((span * b) / g <= span) by (nonlinear_arith)
            requires
                0 <= b <= g,
                0 <= span,
                g > 0,
        ;
        if higher < goal {
            assert(0 <= (span * a) / g <= (span * b) / g) by (nonlinear_arith)
                requires
                    0 <= a <= b,
                    0 <= span,
                    g > 0,
            ;
        } else {
            assert(0 <= (span * b) / g) by (nonlinear_arith)
                requires
                    0 <= b,
                    0 <= span,
                    g > 0,
            ;
        }
    }
}

/// With the goal fixed, a larger amount never fills fewer rows, and every
/// pixel painted at the smaller amount is painted at the larger one too.
pub proof fn lemma_fill_grows_with_progress(
    grid: PixelGrid,
    edge: [u8; 4],
    goal: u32,
    lower: u32,
    higher: u32,
)
    requires
        lower <= higher,
    ensures
        0 <= filled_rows(grid, edge, goal as int, lower as int) <= filled_rows(
            grid,
            edge,
            goal as int,
            higher as int,
        ),
        forall|y: int|
            filled_row(grid, edge, goal as int, lower as int, y) ==> filled_row(
                grid,
                edge,
                goal as int,
                higher as int,
                y,
            ),
        forall|x: int, y: int|
            painted(grid, edge, goal as int, lower as int, x, y) ==> painted(
                grid,
                edge,
                goal as int,
                higher as int,
                x,
                y,
            ),
{
    let rows = inner_rows(grid, edge);
    lemma_empty_rows_shrink(rows.0, rows.1, goal, lower, higher);
}

/// Once the amount reaches the goal no row stays empty: every row of the
/// interior is filled.
pub proof fn lemma_goal_reached_fills_all(grid: PixelGrid, edge: [u8; 4], goal: u32, current: u32)
    requires
        current >= goal,
    ensures
        empty_rows(inner_rows(grid, edge).0, inner_rows(grid, edge).1, goal as int, current as int)
            == 0,
        forall|y: int|
            filled_row(grid, edge, goal as int, current as int, y) <==> inner_rows(grid, edge).0
                <= y < inner_rows(grid, edge).1,
{
}

/// A row in which the scan commits no interior end is left as it was,
/// whatever the amount and the goal.
pub proof fn lemma_row_without_interior_stays(
    before: PixelGrid,
    after: PixelGrid,
    edge: [u8; 4],
    fill: [u8; 4],
    goal: u32,
    current: u32,
    y: int,
)
    requires
        rendered(before, after, edge, fill, goal as int, current as int),
        bounds_of(row_line(before, y), edge).1 == 0,
    ensures
        forall|x: int| (#[trigger] after.pixel_at(x, y)) == before.pixel_at(x, y),
{
    assert forall|x: int| (#[trigger] after.pixel_at(x, y)) == before.pixel_at(x, y) by {
        assert(!painted(before, edge, goal as int, current as int, x, y));
    }
}

/// Filling changes pixels only inside the interior of the line they lie on:
/// of the middle column, and of each row.
pub proof fn lemma_render_repaints_inside(
    before: PixelGrid,
    after: PixelGrid,
    edge: [u8; 4],
    fill: [u8; 4],
    goal: u32,
    current: u32,
)
    requires
        rendered(before, after, edge, fill, goal as int, current as int),
    ensures
        dense(column_line(before, grid_width(before) as int / 2)),
        repainted_inside(
            column_line(before, grid_width(before) as int / 2),
            column_line(after, grid_width(before) as int / 2),
            edge,
        ),
        forall|y: int| #[trigger] dense(row_line(before, y)),
        forall|y: int| #[trigger]
            repainted_inside(row_line(before, y), row_line(after, y), edge),
{
    let middle = grid_width(before) as int / 2;
    let rows = inner_rows(before, edge);
    lemma_empty_rows_shrink(rows.0, rows.1, goal, current, current);
    let a = column_line(before, middle);
    let b = column_line(after, middle);
    assert forall|i: int| 0 <= i < a.len() implies (#[trigger] b[i]).0 == a[i].0 && (b[i].1
        == a[i].1 || bounds_of(a, edge).0 <= i < bounds_of(a, edge).1) by {
        if b[i].1 != a[i].1 {
            assert(painted(before, edge, goal as int, current as int, middle, i));
        }
    }
    assert forall|y: int| #[trigger]
        repainted_inside(row_line(before, y), row_line(after, y), edge) by {
        let a = row_line(before, y);
        let b = row_line(after, y);
        assert forall|i: int| 0 <= i < a.len() implies (#[trigger] b[i]).0 == a[i].0 && (b[i].1
            == a[i].1 || bounds_of(a, edge).0 <= i < bounds_of(a, edge).1) by {
            if b[i].1 != a[i].1 {
                assert(painted(before, edge, goal as int, current as int, i, y));
            }
        }
    }
}

/// The first filled row does not move up when the interior starts lower.
pub proof fn lemma_first_filled_row_grows(
    top: int,
    lower_top: int,
    bottom: int,
    goal: u32,
    current: u32,
)
    requires
        0 <= top <= lower_top <= bottom,
    ensures
        top + empty_rows(top, bottom, goal as int, current as int) <= lower_top + empty_rows(
            lower_top,
            bottom,
            goal as int,
            current as int,
        ),
{
    if current < goal {
        let g = goal as int;
        let missing = goal - current;
        let span = bottom - lower_top;
        let gap = lower_top - top;
        assert((bottom - top) * missing <= span * missing + gap * g) by (nonlinear_arith)
            requires
                bottom - top == span + gap,
                0 <= missing <= g,
                0 <= gap,
        ;
        lemma_div_is_ordered((bottom - top) * missing, span * missing + gap * g, g);
        lemma_hoist_over_denominator(span * missing, gap, g as nat);
    }
}

/// Filling a second time with the same amount and goal changes no pixel.
pub proof fn lemma_render_twice_changes_nothing(
    before: PixelGrid,
    once: PixelGrid,
    twice: PixelGrid,
    edge: [u8; 4],
    fill: [u8; 4],
    goal: u32,
    current: u32,
)
    requires
        rendered(before, once, edge, fill, goal as int, current as int),
        rendered(once, twice, edge, fill, goal as int, current as int),
    ensures
        grid_width(twice) == grid_width(once),
        grid_height(twice) == grid_height(once),
        forall|x: int, y: int| (#[trigger] twice.pixel_at(x, y)) == once.pixel_at(x, y),
{
    let g = goal as int;
    let c = current as int;
    let middle = grid_width(before) as int / 2;
    lemma_render_repaints_inside(before, once, edge, fill, goal, current);
    let column = column_line(before, middle);
    let column_once = column_line(once, middle);
    let rows = inner_rows(before, edge);
    let rows_once = inner_rows(once, edge);
    lemma_scan_settled(column, edge);
    assert(increasing(column_once));
    lemma_scan_settled(column_once, edge);
    lemma_empty_rows_shrink(rows_once.0, rows_once.1, goal, current, current);
    if fill == edge {
        lemma_repaint_narrows_bounds(column, column_once, edge);
        if rows_once.1 != 0 {
            lemma_first_filled_row_grows(rows.0, rows_once.0, rows.1, goal, current);
        }
    } else {
        lemma_repaint_keeps_bounds(column, column_once, edge);
    }
    assert forall|y: int| filled_row(once, edge, g, c, y) implies filled_row(
        before,
        edge,
        g,
        c,
        y,
    ) by {}
    assert forall|x: int, y: int| (#[trigger] twice.pixel_at(x, y)) == once.pixel_at(x, y) by {
        if painted(once, edge, g, c, x, y) {
            let line = row_line(before, y);
            let line_once = row_line(once, y);
            assert(dense(line));
            assert(repainted_inside(line, line_once, edge));
            if fill == edge {
                lemma_repaint_narrows_bounds(line, line_once, edge);
            } else {
                lemma_repaint_keeps_bounds(line, line_once, edge);
            }
            assert(filled_row(before, edge, g, c, y));
            if !painted(before, edge, g, c, x, y) {
                assert(once.pixel_at(x, y) == before.pixel_at(x, y));
            }
        }
    }
}

/// The outline's colour where none is given: opaque black.
pub fn default_edge_rgba() -> (edge: [u8; 4])
    ensures
        edge@ == seq![0u8, 0u8, 0u8, 255u8],
{
    let edge: [u8; 4] = [0, 0, 0, 255];
    assert(edge@ =~= seq![0u8, 0u8, 0u8, 255u8]);
    edge
}

/// The fill colour where none is given: an opaque light blue.
pub fn default_fill_rgba() -> (fill: [u8; 4])
    ensures
        fill@ == seq![173u8, 216u8, 230u8, 255u8],
{
    let fill: [u8; 4] = [173, 216, 230, 255];
    assert(fill@ =~= seq![173u8, 216u8, 230u8, 255u8]);
    fill
}

/// The number of interior rows, counted from `inner_top`, that stay empty
/// when `current` of `goal` has been reached. At or beyond the goal it is 0.
pub fn empty_height(inner_top: u32, inner_bottom: u32, goal: u32, current: u32) -> (empty: u32)
    ensures
        empty == empty_rows(inner_top as int, inner_bottom as int, goal as int, current as int),
        current >= goal ==> empty == 0,
        inner_top <= inner_bottom ==> inner_top + empty <= inner_bottom,
{
    if current < goal && inner_top <= inner_bottom {
        let span: u64 = (inner_bottom - inner_top) as u64;
        let missing: u64 = (goal - current) as u64;
        assert(span * missing <= 0xffff_ffff * 0xffff_ffff) by (nonlinear_arith)
            requires
                span <= 0xffff_ffff,
                missing <= 0xffff_ffff,
        ;
        assert((span * missing) / (goal as int) <= span) by (nonlinear_arith)
            requires
                0 <= missing <= goal,
                0 <= span,
                goal > 0,
        ;
        let empty: u64 = span * missing / (goal as u64);
        empty as u32
    } else {
        0
    }
}

/// Reads column `x` of a grid into a scan line.
pub fn column_scan(grid: &PixelGrid, x: u32) -> (line: Vec<(u32, [u8; 4])>)
    requires
        x < grid_width(*grid),
    ensures
        line@ == column_line(*grid, x as int),
        increasing(line@),
{
    let height: u32 = grid.height();
    let mut line: Vec<(u32, [u8; 4])> = Vec::new();
    let mut y: u32 = 0;
    while y < height
        invariant
            y <= height == grid_height(*grid),
            x < grid_width(*grid),
            line@.len() == y,
            forall|k: int| 0 <= k < y ==> line@[k] == (k as u32, grid.pixel_at(x as int, k)),
        decreases height - y,
    {
        line.push((y, read_pixel(grid, x, y)));
        y = y + 1;
    }
    assert(line@ =~= column_line(*grid, x as int));
    line
}

/// Reads row `y` of a grid into a scan line.
pub fn row_scan(grid: &PixelGrid, y: u32) -> (line: Vec<(u32, [u8; 4])>)
    requires
        y < grid_height(*grid),
    ensures
        line@ == row_line(*grid, y as int),
        increasing(line@),
{
    let width: u32 = grid.width();
    let mut line: Vec<(u32, [u8; 4])> = Vec::new();
    let mut x: u32 = 0;
    while x < width
        invariant
            x <= width == grid_width(*grid),
            y < grid_height(*grid),
            line@.len() == x,
            forall|k: int| 0 <= k < x ==> line@[k] == (k as u32, grid.pixel_at(k, y as int)),
        decreases width - x,
    {
        line.push((x, read_pixel(grid, x, y)));
        x = x + 1;
    }
    assert(line@ =~= row_line(*grid, y as int));
    line
}

/// Gives the fill colour to every fully transparent pixel of row `y` from
/// column `left` up to, not including, column `right`.
pub fn fill_row(grid: &mut PixelGrid, y: u32, left: u32, right: u32, fill_rgba: [u8; 4])
    requires
        y < grid_height(*old(grid)),
        right <= grid_width(*old(grid)),
    ensures
        grid_width(*final(grid)) == grid_width(*old(grid)),
        grid_height(*final(grid)) == grid_height(*old(grid)),
        forall|x: int, row: int|
            (#[trigger] final(grid).pixel_at(x, row)) == if row == y && left <= x < right
                && old(grid).pixel_at(x, row)[3] == 0 {
                fill_rgba
            } else {
                old(grid).pixel_at(x, row)
            },
{
    let ghost before = *grid;
    let mut x: u32 = left;
    while x < right
        invariant
            y < grid_height(*grid),
            right <= grid_width(*grid),
            grid_width(*grid) == grid_width(before),
            grid_height(*grid) == grid_height(before),
            before == *old(grid),
            left <= x,
            x == left || x <= right,
            forall|c: int, row: int|
                (#[trigger] grid.pixel_at(c, row)) == if row == y && left <= c < x
                    && before.pixel_at(c, row)[3] == 0 {
                    fill_rgba
                } else {
                    before.pixel_at(c, row)
                },
        decreases right - x,
    {
        let pixel = read_pixel(grid, x, y);
        if pixel[3] == 0 {
            write_pixel(grid, x, y, fill_rgba);
        }
        x = x + 1;
    }
}

/// Fills the thermometer drawn on `grid`. The outline's colour is
/// `edge_rgba`. The interior rows are found down the middle column; the share
/// of them that is still missing towards `goal` stays empty at the top, and in
/// each row below every fully transparent pixel of the row's own interior
/// gets `fill_rgba`. A row without an interior is left as it is, and so is
/// every pixel that is not fully transparent. With `current` at or beyond
/// `goal` the whole interior is filled.
pub fn render(grid: &mut PixelGrid, edge_rgba: [u8; 4], fill_rgba: [u8; 4], goal: u32, current: u32)
    ensures
        rendered(*old(grid), *final(grid), edge_rgba, fill_rgba, goal as int, current as int),
{
    let ghost before = *grid;
    let width: u32 = grid.width();
    if width == 0 {
        assert forall|x: int, y: int| !painted(
            before,
            edge_rgba,
            goal as int,
            current as int,
            x,
            y,
        ) by {
            assert(row_line(before, y) =~= Seq::empty());
        }
        return ;
    }
    let column = column_scan(grid, width / 2);
    let (inner_top, inner_bottom) = find_bounds(column.as_slice(), edge_rgba);
    let empty = empty_height(inner_top, inner_bottom, goal, current);
    if inner_bottom <= inner_top {
        return ;
    }
    let mut y: u32 = inner_top + empty;
    while y < inner_bottom
        invariant
            before == *old(grid),
            inner_top + empty <= y <= inner_bottom,
            inner_bottom < grid_height(before),
            width == grid_width(before) > 0,
            grid_width(*grid) == grid_width(before),
            grid_height(*grid) == grid_height(before),
            (inner_top as int, inner_bottom as int) == inner_rows(before, edge_rgba),
            empty == empty_rows(inner_top as int, inner_bottom as int, goal as int, current as int),
            forall|x: int, row: int|
                (#[trigger] grid.pixel_at(x, row)) == if row < y && painted(
                    before,
                    edge_rgba,
                    goal as int,
                    current as int,
                    x,
                    row,
                ) {
                    fill_rgba
                } else {
                    before.pixel_at(x, row)
                },
        decreases inner_bottom - y,
    {
        let line = row_scan(grid, y);
        assert(line@ =~= row_line(before, y as int));
        let (inner_left, inner_right) = find_bounds(line.as_slice(), edge_rgba);
        if inner_right != 0 {
            fill_row(grid, y, inner_left, inner_right, fill_rgba);
        }
        y = y + 1;
    }
}

} // verus!
