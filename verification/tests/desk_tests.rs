use vendiwm::desk::{
    centered, float_rect, shelf_region, gap_inset, grid_shape, keyboard_focus, resize_float, tiled_resize,
    tiling_viewport, window_in_dir, FocusTarget,
};
use vendiwm::geometry::Rect;
use vendiwm::input::Dir;
use vendiwm::layout::{Direction, LayoutMode};
use vendiwm::workspaces::Workspace;

#[test]
fn viewport_insets_the_usable_zone() {
    let vp = tiling_viewport(Rect::new(0, 0, 1920, 1080), Rect::new(0, 30, 1920, 1050), 14, 10);
    assert_eq!(vp, Rect::new(9, 39, 1902, 1032));
}

#[test]
fn viewport_of_a_second_monitor() {
    let vp = tiling_viewport(Rect::new(1920, 0, 1280, 1024), Rect::new(0, 0, 1280, 1024), 0, 0);
    assert_eq!(vp, Rect::new(1920, 0, 1280, 1024));
}

#[test]
fn viewport_never_collapses() {
    let vp = tiling_viewport(Rect::new(0, 0, 20, 20), Rect::new(0, 0, 20, 20), 30, 0);
    assert_eq!(vp, Rect::new(30, 30, 1, 1));
}

#[test]
fn negative_gap_rounds_toward_zero() {
    // margin 4, gap -3: half of -3 is -1, so the edge inset is 5
    let vp = tiling_viewport(Rect::new(0, 0, 100, 100), Rect::new(0, 0, 100, 100), 4, -3);
    assert_eq!(vp, Rect::new(5, 5, 90, 90));
}

#[test]
fn tiles_keep_a_gap() {
    assert_eq!(gap_inset(Rect::new(0, 0, 500, 500), 10), Rect::new(5, 5, 490, 490));
    assert_eq!(gap_inset(Rect::new(0, 0, 500, 500), 11), Rect::new(5, 5, 489, 489));
    assert_eq!(gap_inset(Rect::new(0, 0, 5, 500), 10), Rect::new(5, 5, 1, 490));
}

#[test]
fn floated_window_is_three_fifths_centered() {
    let r = float_rect(Rect::new(9, 39, 1902, 1032));
    assert_eq!(r, Rect::new(389, 245, 1141, 619));
}

#[test]
fn floated_window_has_a_minimum_size() {
    let r = float_rect(Rect::new(0, 0, 100, 100));
    assert_eq!(r, Rect::new(-110, -70, 320, 240));
}

#[test]
fn centering_keeps_the_size() {
    assert_eq!(
        centered(Rect::new(0, 0, 1000, 800), Rect::new(3, 4, 301, 200)),
        Rect::new(349, 300, 301, 200)
    );
}

#[test]
fn floating_resize_steps() {
    let r = Rect::new(10, 10, 400, 300);
    assert_eq!(resize_float(r, Dir::Right), Rect::new(10, 10, 448, 300));
    assert_eq!(resize_float(r, Dir::Down), Rect::new(10, 10, 400, 348));
    assert_eq!(resize_float(r, Dir::Left), Rect::new(10, 10, 352, 300));
    assert_eq!(resize_float(r, Dir::Up), Rect::new(10, 10, 400, 252));
    let small = Rect::new(0, 0, 170, 130);
    assert_eq!(resize_float(small, Dir::Left), Rect::new(0, 0, 160, 130));
    assert_eq!(resize_float(small, Dir::Up), Rect::new(0, 0, 170, 120));
}

#[test]
fn tiled_resize_share() {
    assert_eq!(tiled_resize(Dir::Right), (Direction::Horizontal, 400));
    assert_eq!(tiled_resize(Dir::Left), (Direction::Horizontal, -400));
    assert_eq!(tiled_resize(Dir::Down), (Direction::Vertical, 400));
    assert_eq!(tiled_resize(Dir::Up), (Direction::Vertical, -400));
}

#[test]
fn nearest_window_in_each_direction() {
    let from = Rect::new(0, 0, 100, 100);
    let cands = vec![
        (1, from),
        (2, Rect::new(200, 0, 100, 100)),
        (3, Rect::new(0, 300, 100, 100)),
        (4, Rect::new(400, 0, 100, 100)),
        (5, Rect::new(-300, 20, 100, 100)),
    ];
    assert_eq!(window_in_dir(from, 1, &cands, Dir::Right), Some(2));
    assert_eq!(window_in_dir(from, 1, &cands, Dir::Down), Some(3));
    assert_eq!(window_in_dir(from, 1, &cands, Dir::Left), Some(5));
    assert_eq!(window_in_dir(from, 1, &cands, Dir::Up), None);
}

#[test]
fn diagonal_ties_count_for_both_axes_and_first_wins() {
    let from = Rect::new(0, 0, 10, 10);
    let cands = vec![(7, Rect::new(100, 100, 10, 10)), (8, Rect::new(100, 100, 10, 10))];
    assert_eq!(window_in_dir(from, 1, &cands, Dir::Right), Some(7));
    assert_eq!(window_in_dir(from, 1, &cands, Dir::Down), Some(7));
}

#[test]
fn focus_target_picks_the_layer() {
    let mut d = Workspace::new(1, String::new());
    d.insert_tiled(1);
    d.insert_tiled(2);
    d.floating.push((3, Rect::new(0, 0, 10, 10)));
    d.focus_target(3);
    assert_eq!(d.focus_floating, Some(3));
    d.focus_target(1);
    assert_eq!(d.focus_floating, None);
    assert_eq!(d.tree.focused(), Some(1));
}

#[test]
fn swap_toward_moves_tiles_only() {
    let mut d = Workspace::new(1, String::new());
    d.insert_tiled(1);
    d.insert_tiled(2);
    d.floating.push((3, Rect::new(0, 0, 10, 10)));
    d.swap_toward(1, 2);
    assert_eq!(d.tree.windows(), vec![2, 1]);
    assert_eq!(d.tree.focused(), Some(1));
    d.swap_toward(1, 3);
    assert_eq!(d.tree.windows(), vec![2, 1]);
}

#[test]
fn toggle_floating_round_trip() {
    let mut d = Workspace::new(1, String::new());
    d.insert_tiled(1);
    d.insert_tiled(2);
    let r = Rect::new(5, 5, 320, 240);
    d.toggle_floating(2, r);
    assert_eq!(d.tree.windows(), vec![1]);
    assert_eq!(d.floating, vec![(2, r)]);
    assert_eq!(d.focus_floating, Some(2));
    d.toggle_floating(2, r);
    assert!(d.floating.is_empty());
    assert_eq!(d.focus_floating, None);
    assert_eq!(d.tree.windows(), vec![1, 2]);
    assert_eq!(d.tree.focused(), Some(2));
    // a window this desk does not hold is left alone
    d.toggle_floating(9, r);
    assert_eq!(d.tree.windows(), vec![1, 2]);
}

#[test]
fn fullscreen_on_and_off() {
    let mut d = Workspace::new(1, String::new());
    d.insert_tiled(1);
    assert!(d.fullscreen_toggle_on(1));
    d.set_fullscreen(1, true);
    assert_eq!(d.fullscreen, Some(1));
    assert!(!d.fullscreen_toggle_on(1));
    d.set_fullscreen(2, false);
    assert_eq!(d.fullscreen, Some(1));
    d.set_fullscreen(1, false);
    assert_eq!(d.fullscreen, None);
}

#[test]
fn arrange_applies_gaps_and_overrides() {
    let mut d = Workspace::new(1, String::new());
    d.insert_tiled(1);
    d.insert_tiled(2);
    d.floating.push((3, Rect::new(50, 60, 300, 200)));
    d.fullscreen = Some(2);
    let vp = Rect::new(0, 0, 1000, 500);
    let out = Rect::new(0, 0, 1000, 540);
    let a = d.arrange(vp, out, 10, &vec![1, 2, 3]);
    assert_eq!(a.tiles, vec![(1, Rect::new(5, 5, 490, 490)), (2, Rect::new(505, 5, 490, 490))]);
    assert_eq!(a.raise, None);
    assert_eq!(a.floating, vec![(3, Rect::new(50, 60, 300, 200))]);
    assert_eq!(a.fullscreen, Some((2, out)));
    // a dead fullscreen window covers nothing
    assert_eq!(d.arrange(vp, out, 10, &vec![1, 3]).fullscreen, None);
    d.mode = LayoutMode::Monocle;
    let m = d.arrange(vp, out, 0, &vec![1, 2, 3]);
    assert_eq!(m.raise, Some(2));
    assert_eq!(m.tiles, vec![(1, vp), (2, vp)]);
}

#[test]
fn keyboard_focus_order() {
    let live = vec![1, 2];
    assert_eq!(keyboard_focus(true, true, Some(1), &live), FocusTarget::Lock);
    assert_eq!(keyboard_focus(false, true, Some(1), &live), FocusTarget::Layer);
    assert_eq!(keyboard_focus(false, false, Some(1), &live), FocusTarget::Window(1));
    assert_eq!(keyboard_focus(false, false, Some(9), &live), FocusTarget::Nothing);
    assert_eq!(keyboard_focus(false, false, None, &live), FocusTarget::Nothing);
}

#[test]
fn overview_grid_shapes() {
    assert_eq!(grid_shape(0), (0, 0));
    assert_eq!(grid_shape(1), (1, 1));
    assert_eq!(grid_shape(2), (2, 1));
    assert_eq!(grid_shape(3), (2, 2));
    assert_eq!(grid_shape(4), (2, 2));
    assert_eq!(grid_shape(5), (3, 2));
    assert_eq!(grid_shape(9), (3, 3));
    assert_eq!(grid_shape(10), (4, 3));
}

#[test]
fn shelf_column_sits_inside_the_margin() {
    let r = shelf_region(Rect::new(0, 0, 1920, 1080), Rect::new(0, 30, 1920, 1050), 14, 10);
    assert_eq!(r, Rect::new(14, 44, 198, 1022));
    let tiny = shelf_region(Rect::new(100, 0, 50, 50), Rect::new(0, 0, 50, 20), 14, 0);
    assert_eq!(tiny, Rect::new(114, 14, 208, 1));
}
