use vendiwm::geometry::Rect;
use vendiwm::overview::{center_in_cell, grid_cell, overview_frame, thumb_grid, OverviewFrame, ThumbGrid};

#[test]
fn few_panels_get_wide_margins() {
    let f = overview_frame(Rect::new(0, 0, 1920, 1080), 2);
    assert_eq!(
        f,
        OverviewFrame { area: Rect::new(73, 77, 1774, 954), cols: 2, rows: 1, gap: 28, slot_w: 873, slot_h: 954 }
    );
}

#[test]
fn many_panels_get_a_grid() {
    let f = overview_frame(Rect::new(0, 0, 1920, 1080), 5);
    assert_eq!(
        f,
        OverviewFrame { area: Rect::new(137, 120, 1646, 883), cols: 3, rows: 2, gap: 36, slot_w: 524, slot_h: 423 }
    );
}

#[test]
fn the_short_last_row_is_centered() {
    let area = Rect::new(137, 120, 1646, 883);
    // first row: three panels from the left edge of the centered row
    assert_eq!(grid_cell(area, 5, 3, 2, 500, 281, 423, 36, 0), (137 + 37, 120 + 71));
    // last row holds two panels, centered
    assert_eq!(grid_cell(area, 5, 3, 2, 500, 281, 423, 36, 4), (978, 650));
}

#[test]
fn thumbnails_sit_inside_the_panel() {
    let g = thumb_grid(Rect::new(0, 0, 400, 225), 3);
    assert_eq!(g, ThumbGrid { inner: Rect::new(18, 18, 364, 189), cols: 2, rows: 2, gap: 10, cw: 177, ch: 89 });
    let tiny = thumb_grid(Rect::new(0, 0, 10, 10), 1);
    assert_eq!(tiny.inner, Rect::new(8, 8, 1, 1));
    assert_eq!(center_in_cell(10, 20, 100, 50, 60, 51), (30, 20));
}
