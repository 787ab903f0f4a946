use thermometer::fill::{column_scan, empty_height, fill_row, render, row_scan};
use thermometer::grid::PixelGrid;

const E: [u8; 4] = [0, 0, 0, 255];
const T: [u8; 4] = [0, 0, 0, 0];
const F: [u8; 4] = [173, 216, 230, 255];
const D: [u8; 4] = [90, 90, 90, 128];

fn grid_of(rows: &[Vec<[u8; 4]>]) -> PixelGrid {
    let height = rows.len() as u32;
    let width = rows[0].len() as u32;
    let mut buf: Vec<u8> = Vec::new();
    for row in rows {
        assert_eq!(row.len() as u32, width);
        for pixel in row {
            buf.extend_from_slice(pixel);
        }
    }
    PixelGrid::from_raw(width, height, buf).unwrap()
}

fn rows_of(grid: &PixelGrid) -> Vec<Vec<[u8; 4]>> {
    let mut rows = Vec::new();
    for y in 0..grid.height() {
        let mut row = Vec::new();
        for x in 0..grid.width() {
            row.push(grid.get_pixel(x, y).unwrap());
        }
        rows.push(row);
    }
    rows
}

/// A tube six pixels wide and fourteen tall: the outline in row 0 and row
/// 12 and in columns 0 and 4, eleven open rows between, one more row below.
fn tube() -> Vec<Vec<[u8; 4]>> {
    let mut rows = vec![vec![E; 6]];
    for _ in 1..12 {
        rows.push(vec![E, T, T, T, E, T]);
    }
    rows.push(vec![E; 6]);
    rows.push(vec![T; 6]);
    rows
}

fn count_of(rows: &[Vec<[u8; 4]>], colour: [u8; 4]) -> usize {
    rows.iter().map(|row| row.iter().filter(|p| **p == colour).count()).sum()
}

#[test]
fn empty_height_truncates() {
    assert_eq!(empty_height(0, 10, 10000, 4500), 5);
    assert_eq!(empty_height(1, 11, 10000, 4500), 5);
    assert_eq!(empty_height(0, 10, 3, 1), 6);
    assert_eq!(empty_height(0, 10, 10, 0), 10);
    assert_eq!(empty_height(0, 7, 2, 1), 3);
}

#[test]
fn empty_height_is_zero_at_or_beyond_the_goal() {
    assert_eq!(empty_height(0, 10, 500, 550), 0);
    assert_eq!(empty_height(0, 10, 500, 500), 0);
    assert_eq!(empty_height(3, 300, 0, 0), 0);
}

#[test]
fn empty_height_is_zero_without_a_span() {
    assert_eq!(empty_height(5, 0, 100, 10), 0);
    assert_eq!(empty_height(5, 5, 100, 10), 0);
}

#[test]
fn empty_height_does_not_overflow() {
    assert_eq!(empty_height(0, 4294967295, 4294967295, 0), 4294967295);
    assert_eq!(empty_height(0, 4294967295, 4294967295, 1), 4294967294);
    assert_eq!(empty_height(0, 4000000000, 3, 1), 2666666666);
}

#[test]
fn render_fills_the_lower_part_of_the_interior() {
    let mut grid = grid_of(&tube());
    render(&mut grid, E, F, 10000, 4500);
    let mut expected = tube();
    for y in 6..11 {
        expected[y][1] = F;
        expected[y][2] = F;
    }
    assert_eq!(rows_of(&grid), expected);
}

#[test]
fn render_fills_the_whole_interior_beyond_the_goal() {
    let mut grid = grid_of(&tube());
    render(&mut grid, E, F, 500, 550);
    let mut expected = tube();
    for y in 1..11 {
        expected[y][1] = F;
        expected[y][2] = F;
    }
    assert_eq!(rows_of(&grid), expected);
}

#[test]
fn render_fills_nothing_without_progress() {
    let mut grid = grid_of(&tube());
    render(&mut grid, E, F, 100, 0);
    assert_eq!(rows_of(&grid), tube());
}

#[test]
fn render_twice_changes_nothing_more() {
    let mut grid = grid_of(&tube());
    render(&mut grid, E, F, 10000, 4500);
    let once = rows_of(&grid);
    render(&mut grid, E, F, 10000, 4500);
    assert_eq!(rows_of(&grid), once);
}

#[test]
fn render_twice_changes_nothing_more_with_the_edge_colour_as_fill() {
    for current in [0, 3, 5, 8, 10] {
        let mut grid = grid_of(&tube());
        render(&mut grid, E, E, 10, current);
        let once = rows_of(&grid);
        render(&mut grid, E, E, 10, current);
        assert_eq!(rows_of(&grid), once);
    }
}

#[test]
fn render_twice_changes_nothing_more_with_a_transparent_edge_colour() {
    let mut rows = vec![vec![T; 7]];
    for _ in 1..9 {
        rows.push(vec![T, D, T, D, D, T, D]);
    }
    rows.push(vec![T; 7]);
    rows.push(vec![D; 7]);
    for current in [0, 3, 5, 8, 10] {
        let mut grid = grid_of(&rows);
        render(&mut grid, T, F, 10, current);
        let once = rows_of(&grid);
        render(&mut grid, T, F, 10, current);
        assert_eq!(rows_of(&grid), once);
    }
}

#[test]
fn render_paints_edge_pixels_that_are_transparent() {
    let mut rows = vec![vec![T; 7]];
    for _ in 1..9 {
        rows.push(vec![T, D, T, D, D, T, D]);
    }
    rows.push(vec![T; 7]);
    rows.push(vec![D; 7]);
    let mut grid = grid_of(&rows);
    render(&mut grid, T, F, 10, 10);
    let after = rows_of(&grid);
    assert_eq!(after[0], vec![T; 7]);
    for y in 1..8 {
        assert_eq!(after[y], vec![T, D, F, D, D, T, D]);
    }
    assert_eq!(after[8], vec![T, D, T, D, D, T, D]);
    assert_eq!(after[9], vec![T; 7]);
}

#[test]
fn render_fills_no_less_with_more_progress() {
    let mut last = 0;
    for current in [0, 1, 10, 33, 50, 67, 99, 100, 101, 1000] {
        let mut grid = grid_of(&tube());
        render(&mut grid, E, F, 100, current);
        let filled = count_of(&rows_of(&grid), F);
        assert!(filled >= last);
        last = filled;
    }
    assert_eq!(last, 20);
}

#[test]
fn render_skips_a_row_without_interior() {
    let mut rows = tube();
    rows[7] = vec![T; 6];
    rows[8] = vec![E, T, T, T, T, T];
    let mut grid = grid_of(&rows);
    render(&mut grid, E, F, 500, 550);
    let after = rows_of(&grid);
    assert_eq!(after[7], vec![T; 6]);
    assert_eq!(after[8], vec![E, T, T, T, T, T]);
    assert_eq!(after[6], vec![E, F, F, T, E, T]);
    assert_eq!(after[9], vec![E, F, F, T, E, T]);
}

#[test]
fn render_paints_only_fully_transparent_pixels() {
    let mut rows = tube();
    rows[9] = vec![E, D, T, T, E, T];
    rows[10] = vec![E, T, F, T, E, T];
    let mut grid = grid_of(&rows);
    render(&mut grid, E, F, 1, 1);
    let after = rows_of(&grid);
    assert_eq!(after[9], vec![E, D, F, T, E, T]);
    assert_eq!(after[10], vec![E, F, F, T, E, T]);
}

#[test]
fn render_leaves_a_picture_without_outline() {
    let rows = vec![vec![T; 4]; 5];
    let mut grid = grid_of(&rows);
    render(&mut grid, E, F, 10, 10);
    assert_eq!(rows_of(&grid), rows);
}

#[test]
fn render_leaves_an_outline_that_never_closes() {
    let mut rows = vec![vec![E; 6]];
    for _ in 1..6 {
        rows.push(vec![E, T, T, T, E, T]);
    }
    let mut grid = grid_of(&rows);
    render(&mut grid, E, F, 10, 5);
    assert_eq!(rows_of(&grid), rows);
    render(&mut grid, E, F, 10, 10);
    assert_eq!(rows_of(&grid), rows);
}

#[test]
fn render_leaves_an_empty_picture() {
    let mut grid = PixelGrid::from_raw(0, 0, Vec::new()).unwrap();
    render(&mut grid, E, F, 10, 5);
    assert_eq!(grid.width(), 0);
    assert_eq!(grid.height(), 0);
    let mut flat = PixelGrid::from_raw(0, 3, Vec::new()).unwrap();
    render(&mut flat, E, F, 10, 5);
    assert_eq!(flat.height(), 3);
}

#[test]
fn scans_read_a_column_and_a_row() {
    let grid = grid_of(&[vec![E, T, F], vec![D, E, T]]);
    assert_eq!(column_scan(&grid, 0), vec![(0, E), (1, D)]);
    assert_eq!(column_scan(&grid, 2), vec![(0, F), (1, T)]);
    assert_eq!(row_scan(&grid, 0), vec![(0, E), (1, T), (2, F)]);
    assert_eq!(row_scan(&grid, 1), vec![(0, D), (1, E), (2, T)]);
}

#[test]
fn fill_row_paints_transparent_pixels_of_a_range() {
    let mut grid = grid_of(&[vec![T, T, D, T, T], vec![T, T, T, T, T]]);
    fill_row(&mut grid, 0, 1, 4, F);
    assert_eq!(rows_of(&grid), vec![vec![T, F, D, F, T], vec![T; 5]]);
    fill_row(&mut grid, 1, 3, 2, F);
    assert_eq!(rows_of(&grid), vec![vec![T, F, D, F, T], vec![T; 5]]);
}
