use vendiwm::geometry::Rect;
use vendiwm::pins::Pins;
use vendiwm::workspaces::Workspaces;

fn desks_with(tiles: &[u32]) -> Workspaces {
    let mut w = Workspaces::new();
    w.output_added("DP-1");
    for t in tiles {
        w.active().insert_tiled(*t);
    }
    w
}

#[test]
fn pinning_a_tile_floats_it_in_the_corner() {
    let mut w = desks_with(&[1, 2]);
    let mut p = Pins::new();
    let live = vec![1, 2];
    let corner = Rect::new(1500, 700, 400, 300);
    assert!(p.toggle_pin(&mut w, &live, Some(corner)));
    assert_eq!(p.pinned, vec![2]);
    assert_eq!(p.from_tile, vec![2]);
    assert_eq!(w.active_ref().floating, vec![(2, corner)]);
    assert_eq!(w.active_ref().tree.windows(), vec![1]);
    assert_eq!(w.active_ref().focus_floating, Some(2));
    // unpinning tiles it again
    assert!(p.toggle_pin(&mut w, &live, None));
    assert!(p.pinned.is_empty());
    assert!(p.from_tile.is_empty());
    assert!(w.active_ref().floating.is_empty());
    assert_eq!(w.active_ref().focused_window(&live), Some(2));
    assert_eq!(w.active_ref().tree.windows().len(), 2);
}

#[test]
fn no_corner_no_pin() {
    let mut w = desks_with(&[1]);
    let mut p = Pins::new();
    assert!(!p.toggle_pin(&mut w, &vec![1], None));
    assert!(p.pinned.is_empty());
    assert_eq!(w.active_ref().windows(), vec![1]);
    let mut empty = desks_with(&[]);
    assert!(!p.toggle_pin(&mut empty, &vec![], None));
}

#[test]
fn pins_follow_a_desk_switch() {
    let mut w = desks_with(&[1, 2]);
    let mut p = Pins::new();
    let live = vec![1, 2];
    let corner = Rect::new(10, 10, 100, 100);
    p.toggle_pin(&mut w, &live, Some(corner));
    let lifted = p.unpin_for_switch(&mut w, &live);
    assert_eq!(lifted, vec![(2, corner)]);
    assert_eq!(p.focus, Some(2));
    assert!(w.active_ref().floating.is_empty());
    assert_eq!(w.active_ref().focus_floating, None);
    let hidden = w.switch_to(3);
    assert_eq!(hidden, vec![1]);
    p.repin(&mut w, lifted);
    assert_eq!(w.active_ref().floating, vec![(2, corner)]);
    assert_eq!(w.active_ref().focus_floating, Some(2));
    assert_eq!(p.focus, None);
}

#[test]
fn dead_pins_are_dropped_and_pinned_windows_stay_on_stage() {
    let mut w = desks_with(&[1, 2]);
    let mut p = Pins::new();
    p.toggle_pin(&mut w, &vec![1, 2], Some(Rect::new(0, 0, 5, 5)));
    assert_eq!(p.stage_out(Some(2)), None);
    assert_eq!(p.stage_out(Some(1)), Some(1));
    let lifted = p.unpin_for_switch(&mut w, &vec![1]);
    assert!(p.pinned.is_empty());
    assert!(lifted.is_empty());
    p.forget(2);
    assert!(p.from_tile.is_empty());
}

#[test]
fn lifting_and_dropping_pins_on_the_same_desk_keeps_it() {
    let mut w = desks_with(&[1, 2, 3]);
    let mut p = Pins::new();
    let live = vec![1, 2, 3];
    let c = Rect::new(0, 0, 50, 50);
    p.toggle_pin(&mut w, &live, Some(c));
    w.active().float_window_at(1, Rect::new(5, 5, 10, 10));
    let before = w.active_ref().floating.clone();
    let focus_before = w.active_ref().focus_floating;
    let out = p.unpin_for_switch(&mut w, &live);
    p.repin(&mut w, out);
    let after = w.active_ref().floating.clone();
    assert_eq!(after.len(), before.len());
    for e in &before {
        assert!(after.contains(e));
    }
    assert_eq!(after.last(), Some(&(3, c)));
    assert_eq!(w.active_ref().focus_floating, focus_before);
}
