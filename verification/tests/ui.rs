use ttb::layout::{cell_of, grid_shape, scroll_for, sidebar_width};
use ttb::paint::Rect;
use ttb::tags::Row;

fn shape(w: u16, h: u16, tags: usize) -> (u16, u16, usize) {
    grid_shape(Rect { x: 0, y: 0, width: w, height: h }, tags)
}

fn rows_of(labels: &[(usize, &str, bool)]) -> Vec<Row> {
    labels
        .iter()
        .map(|(depth, label, leaf)| Row {
            depth: *depth,
            label: label.to_string(),
            path: label.to_string(),
            leaf: *leaf,
            leaves: 1,
            expanded: true,
        })
        .collect()
}

#[test]
fn the_sidebar_fits_its_content_within_bounds() {
    let short = rows_of(&[(0, "train", false), (1, "loss", true)]);
    let runs = vec!["baseline".to_string()];
    assert_eq!(sidebar_width(200, &runs, &short), 24, "short names keep it narrow");

    let long = rows_of(&[(1, "swh_content-dedup-opc-filtered-code_bd912224", false)]);
    assert_eq!(sidebar_width(200, &runs, &long), 46, "long names take the ceiling");
    assert_eq!(sidebar_width(80, &runs, &long), 32, "but never more than two fifths");
    assert_eq!(sidebar_width(40, &runs, &long), 24, "and never below the floor");
}

#[test]
fn columns_follow_the_width() {
    assert_eq!(shape(60, 30, 9).0, 1, "a narrow pane stays single column");
    assert_eq!(shape(100, 30, 9).0, 2);
    assert_eq!(shape(160, 30, 9).0, 3);
    assert_eq!(shape(400, 30, 9).0, 3, "never more than three across");
}

#[test]
fn the_column_thresholds_are_where_they_claim_to_be() {
    // Pinned literally rather than recomputed: these are widths of the
    // chart pane, not of the terminal — the sidebar takes 24-34 columns
    // before this sees anything.
    for (width, columns) in [(39, 1), (40, 1), (79, 1), (80, 2), (119, 2), (120, 3), (200, 3)] {
        assert_eq!(shape(width, 30, 9).0, columns, "at pane width {}", width);
    }
}

#[test]
fn rows_follow_the_height() {
    assert_eq!(shape(160, 10, 9).1, 1, "a short pane fits one row");
    assert_eq!(shape(160, 20, 9).1, 2);
    assert_eq!(shape(160, 30, 9).1, 3);
    assert_eq!(shape(160, 200, 9).1, 3);
}

#[test]
fn the_grid_never_exceeds_its_capacity() {
    for (w, h) in [(60, 30), (100, 30), (160, 30), (160, 10), (40, 6)] {
        let (cols, rows, n) = shape(w, h, 100);
        assert_eq!(n, (cols * rows) as usize, "{}x{} left cells unused", w, h);
        assert!(cols <= 3 && rows <= 3);
    }
}

#[test]
fn the_shape_shrinks_to_the_tags_available() {
    // one tag never becomes a 3x3 of blanks
    assert_eq!(shape(160, 30, 1), (1, 1, 1));
    // two go side by side, using the full height, not stacked
    assert_eq!(shape(160, 30, 2), (2, 1, 2));
    assert_eq!(shape(160, 30, 3), (3, 1, 3));
    // four square up rather than leaving a ragged row of three plus one
    assert_eq!(shape(160, 30, 4), (2, 2, 4));
    assert_eq!(shape(160, 30, 6), (3, 2, 6));
    assert_eq!(shape(160, 30, 9), (3, 3, 9));
}

#[test]
fn a_narrow_pane_stacks_within_the_rows_it_has() {
    assert_eq!(shape(60, 30, 5), (1, 3, 3), "one column, three rows, three tags");
    assert_eq!(shape(60, 12, 5), (1, 1, 1));
}

#[test]
fn even_a_tiny_pane_asks_for_one_chart() {
    let (cols, rows, n) = shape(10, 3, 5);
    assert_eq!((cols, rows, n), (1, 1, 1));
    // and with no tags at all the count never underflows
    assert_eq!(shape(160, 30, 0), (1, 1, 1));
}

#[test]
fn cells_share_out_the_pane() {
    let area = Rect { x: 3, y: 2, width: 100, height: 31 };
    assert_eq!(cell_of(area, 3, 2, 0), Rect { x: 3, y: 2, width: 34, height: 16 });
    assert_eq!(cell_of(area, 3, 2, 1), Rect { x: 37, y: 2, width: 33, height: 16 });
    assert_eq!(cell_of(area, 3, 2, 5), Rect { x: 70, y: 18, width: 33, height: 15 });
    let mut sum = 0;
    for i in 0..6 {
        let c = cell_of(area, 3, 2, i);
        sum += c.width as u32 * c.height as u32;
    }
    assert_eq!(sum, 100 * 31);
}

#[test]
fn the_selection_is_kept_in_sight() {
    assert_eq!(scroll_for(5, 2, 4), 2);
    assert_eq!(scroll_for(0, 9, 4), 6);
    assert_eq!(scroll_for(3, 5, 4), 3);
    assert_eq!(scroll_for(3, 5, 0), 0);
}
