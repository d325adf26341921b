use vendiwm::geometry::Rect;
use vendiwm::workspaces::{Stack, Workspace, Workspaces};

fn live(ws: &[u32]) -> Vec<u32> {
    ws.to_vec()
}

#[test]
fn starts_on_desk_one() {
    let w = Workspaces::new();
    assert_eq!(w.active_id(), 1);
    assert_eq!(w.previous_id(), 1);
    assert_eq!(w.focused_output(), "");
    assert_eq!(w.iter().len(), 1);
    assert!(w.active_ref().is_empty());
    assert!(w.has_room());
    let d = Workspaces::default();
    assert_eq!(d.active_id(), 1);
}

#[test]
fn first_monitor_gets_desk_one() {
    let mut w = Workspaces::new();
    w.output_added("DP-1");
    assert_eq!(w.shown_on("DP-1"), Some(1));
    assert_eq!(w.focused_output(), "DP-1");
    assert!(w.is_shown(1));
    assert_eq!(w.output_showing(1), Some("DP-1"));
    assert_eq!(w.shown().len(), 1);
    // adding it again changes nothing
    w.output_added("DP-1");
    assert_eq!(w.shown().len(), 1);
}

#[test]
fn second_monitor_gets_lowest_free_desk() {
    let mut w = Workspaces::new();
    w.output_added("DP-1");
    w.output_added("HDMI-A-1");
    assert_eq!(w.shown_on("HDMI-A-1"), Some(2));
    assert_eq!(w.active_id(), 1);
    assert!(w.focus_output("HDMI-A-1"));
    assert_eq!(w.active_id(), 2);
    assert!(!w.focus_output("HDMI-A-1"));
    assert!(!w.focus_output("nowhere"));
}

#[test]
fn unplugging_hides_the_desk_and_moves_focus() {
    let mut w = Workspaces::new();
    w.output_added("DP-1");
    w.output_added("HDMI-A-1");
    w.focus_output("HDMI-A-1");
    w.active().insert_tiled(7);
    let hidden = w.output_removed("HDMI-A-1");
    assert_eq!(hidden, vec![7]);
    assert_eq!(w.active_id(), 1);
    assert_eq!(w.shown_on("HDMI-A-1"), None);
    assert!(w.output_removed("HDMI-A-1").is_empty());
    // reconnecting brings the same desk back
    w.output_added("HDMI-A-1");
    assert_eq!(w.shown_on("HDMI-A-1"), Some(2));
}

#[test]
fn switching_creates_desks_on_demand() {
    let mut w = Workspaces::new();
    w.output_added("DP-1");
    w.active().insert_tiled(10);
    let hidden = w.switch_to(3);
    assert_eq!(hidden, vec![10]);
    assert_eq!(w.active_id(), 3);
    assert_eq!(w.previous_id(), 1);
    assert!(w.get(3).is_some());
    assert_eq!(w.shown_on("DP-1"), Some(3));
    assert!(w.switch_to(3).is_empty());
}

#[test]
fn back_and_forth_returns() {
    let mut w = Workspaces::new();
    w.output_added("DP-1");
    w.active().insert_tiled(10);
    w.switch_to(4);
    let prev = w.previous_id();
    w.switch_to(prev);
    assert_eq!(w.active_id(), 1);
    assert_eq!(w.previous_id(), 4);
}

#[test]
fn empty_desks_off_screen_are_dropped() {
    let mut w = Workspaces::new();
    w.output_added("DP-1");
    w.switch_to(2);
    // desk 1 was empty and is no longer shown
    assert!(w.get(1).is_none());
    assert_eq!(w.iter().len(), 1);
}

#[test]
fn move_window_between_desks() {
    let mut w = Workspaces::new();
    w.output_added("DP-1");
    w.active().insert_tiled(5);
    w.active().insert_tiled(6);
    w.move_window_to(5, 2, &live(&[5, 6]));
    assert_eq!(w.find_workspace(5), Some(2));
    assert_eq!(w.find_workspace(6), Some(1));
    assert_eq!(w.get(2).unwrap().windows(), vec![5]);
    assert_eq!(w.active_ref().windows(), vec![6]);
    assert_eq!(w.find_workspace(99), None);
    let mut all = w.all_windows();
    all.sort();
    assert_eq!(all, vec![5, 6]);
}

#[test]
fn remove_window_everywhere() {
    let mut w = Workspaces::new();
    w.output_added("DP-1");
    w.active().insert_tiled(5);
    w.move_window_to(5, 2, &live(&[5]));
    w.remove_window(5, &live(&[]));
    assert_eq!(w.find_workspace(5), None);
    // desk 2 went empty off screen: pruned
    assert!(w.get(2).is_none());
}

#[test]
fn prune_dead_keeps_only_live_windows() {
    let mut w = Workspaces::new();
    w.output_added("DP-1");
    w.active().insert_tiled(1);
    w.active().insert_tiled(2);
    w.active().floating.push((3, Rect::new(0, 0, 10, 10)));
    w.scratchpad.push(4);
    w.scratchpad.push(5);
    w.prune_dead(&live(&[2, 5]));
    assert_eq!(w.all_windows(), vec![2]);
    assert_eq!(w.scratchpad, vec![5]);
}

#[test]
fn snapshot_lists_desks_by_id() {
    let mut w = Workspaces::new();
    w.output_added("DP-1");
    w.active().insert_tiled(1);
    w.move_window_to(1, 5, &live(&[1]));
    w.active().insert_tiled(2);
    let (active, list) = w.snapshot();
    assert_eq!(active, 1);
    assert_eq!(
        list,
        vec![(1, 1, "DP-1".to_string(), true), (5, 1, "DP-1".to_string(), false)]
    );
}

#[test]
fn visible_windows_of_the_shown_desks() {
    let mut w = Workspaces::new();
    w.output_added("DP-1");
    w.output_added("HDMI-A-1");
    w.active().insert_tiled(1);
    w.focus_output("HDMI-A-1");
    w.active().insert_tiled(2);
    w.active().floating.push((3, Rect::new(0, 0, 5, 5)));
    assert_eq!(w.visible_windows(), vec![1, 2, 3]);
}

#[test]
fn adjacent_desks_on_the_monitor() {
    let mut w = Workspaces::new();
    w.output_added("DP-1");
    // an empty desk does not spawn a next one
    assert_eq!(w.adjacent_id(true), None);
    assert_eq!(w.adjacent_id(false), None);
    w.active().insert_tiled(1);
    assert_eq!(w.adjacent_id(true), Some(2));
    w.move_window_to(1, 3, &live(&[1]));
    w.active().insert_tiled(2);
    assert_eq!(w.adjacent_id(true), Some(3));
    w.switch_to(3);
    assert_eq!(w.adjacent_id(false), Some(1));
}

#[test]
fn workspace_focus_prefers_fullscreen_then_floating() {
    let mut d = Workspace::new(1, "DP-1".to_string());
    d.insert_tiled(1);
    d.floating.push((2, Rect::new(0, 0, 10, 10)));
    assert_eq!(d.focused_window(&live(&[1, 2])), Some(1));
    d.focus_floating = Some(2);
    assert_eq!(d.focused_window(&live(&[1, 2])), Some(2));
    d.fullscreen = Some(1);
    assert_eq!(d.focused_window(&live(&[1, 2])), Some(1));
    // dead marks are skipped
    assert_eq!(d.focused_window(&live(&[2])), Some(2));
}

#[test]
fn workspace_contains_hidden_tabs() {
    let mut d = Workspace::new(1, String::new());
    d.insert_tiled(1);
    d.stacks.push(Stack { members: vec![1, 2], active: 0 });
    assert!(d.contains(2));
    assert_eq!(d.stack_of(2), Some(0));
    assert_eq!(d.stack_of(3), None);
    assert_eq!(d.stacks[0].active_window(), Some(1));
    assert!(!d.is_empty());
}

#[test]
fn prune_stacks_promotes_a_live_member() {
    let mut d = Workspace::new(1, String::new());
    d.insert_tiled(1);
    d.stacks.push(Stack { members: vec![1, 2, 3], active: 0 });
    d.tree.remove(1);
    d.prune_stacks(&live(&[2, 3]));
    assert_eq!(d.tree.windows(), vec![2]);
    assert_eq!(d.stacks.len(), 1);
    assert_eq!(d.stacks[0].members, vec![2, 3]);
    assert_eq!(d.stacks[0].active, 0);
    // one member left: the stack dissolves
    d.prune_stacks(&live(&[2]));
    assert!(d.stacks.is_empty());
}

#[test]
fn workspace_remove_takes_it_out_of_stacks() {
    let mut d = Workspace::new(1, String::new());
    d.insert_tiled(1);
    d.stacks.push(Stack { members: vec![1, 2], active: 0 });
    d.remove(1, &live(&[1, 2]));
    assert!(!d.contains(1));
    assert_eq!(d.tree.windows(), vec![2]);
    assert!(d.stacks.is_empty());
}

#[test]
fn shelf_add_brings_a_card_on_stage() {
    let mut w = Workspaces::new();
    w.output_added("DP-1");
    w.scratchpad = vec![4, 5];
    assert!(w.stage_add(5));
    assert_eq!(w.scratchpad, vec![4]);
    assert_eq!(w.active_ref().tree.windows(), vec![5]);
    assert!(!w.stage_add(9));
}

#[test]
fn shelf_swap_trades_places() {
    let mut w = Workspaces::new();
    w.output_added("DP-1");
    w.active().insert_tiled(1);
    w.scratchpad = vec![4, 5];
    assert!(w.stage_swap(5, Some(1)));
    assert_eq!(w.scratchpad, vec![4, 1]);
    assert_eq!(w.active_ref().tree.windows(), vec![5]);
    assert_eq!(w.active_ref().tree.focused(), Some(5));
}

#[test]
fn shelf_swap_with_nothing_focused_just_tiles() {
    let mut w = Workspaces::new();
    w.output_added("DP-1");
    w.scratchpad = vec![4];
    assert!(w.stage_swap(4, None));
    assert!(w.scratchpad.is_empty());
    assert_eq!(w.active_ref().tree.windows(), vec![4]);
}

#[test]
fn shelf_swap_takes_a_floating_slot() {
    let mut w = Workspaces::new();
    w.output_added("DP-1");
    w.active().floating.push((1, Rect::new(10, 20, 300, 200)));
    w.scratchpad = vec![4];
    assert!(w.stage_swap(4, Some(1)));
    assert_eq!(w.scratchpad, vec![1]);
    assert_eq!(w.active_ref().floating, vec![(4, Rect::new(10, 20, 300, 200))]);
    assert_eq!(w.active_ref().focus_floating, Some(4));
}

#[test]
fn stash_parks_a_window_on_the_shelf() {
    let mut w = Workspaces::new();
    w.output_added("DP-1");
    w.active().insert_tiled(1);
    w.active().insert_tiled(2);
    w.scratchpad = vec![7, 8];
    w.stash(2, 1, &live(&[1, 2, 7, 8]));
    assert_eq!(w.scratchpad, vec![7, 2, 8]);
    assert_eq!(w.find_workspace(2), None);
    assert_eq!(w.active_ref().tree.windows(), vec![1]);
    // past the end: last
    w.stash(1, 99, &live(&[1, 2, 7, 8]));
    assert_eq!(w.scratchpad, vec![7, 2, 8, 1]);
}

#[test]
fn overview_shows_busy_desks_and_the_active_one() {
    let mut w = Workspaces::new();
    w.output_added("DP-1");
    w.active().insert_tiled(1);
    w.move_window_to(1, 3, &live(&[1]));
    w.move_window_to(1, 5, &live(&[1]));
    // desk 3 went empty (off screen: pruned), desk 1 is empty but active
    assert_eq!(w.overview_panels(), vec![1, 5]);
}

#[test]
fn stash_then_stage_returns_the_window() {
    let mut w = Workspaces::new();
    w.output_added("DP-1");
    w.active().insert_tiled(1);
    w.active().insert_tiled(2);
    w.scratchpad.push(9);
    let live = live(&[1, 2, 9]);
    w.stash(2, 0, &live);
    assert_eq!(w.scratchpad, vec![2, 9]);
    assert_eq!(w.find_workspace(2), None);
    assert!(w.stage_add(2));
    assert_eq!(w.scratchpad, vec![9]);
    assert_eq!(w.active_ref().focused_window(&live), Some(2));
    assert!(!w.stage_add(2));
}

#[test]
fn removing_a_window_keeps_the_others() {
    let mut w = Workspaces::new();
    w.output_added("DP-1");
    w.active().insert_tiled(1);
    w.active().insert_tiled(2);
    w.switch_to(2);
    w.active().insert_tiled(3);
    w.switch_to(4);
    let live = live(&[1, 2, 3]);
    w.remove_window(3, &live);
    // desk 2 went empty and is off screen: it is dropped
    assert!(w.get(2).is_none());
    assert_eq!(w.get(1).unwrap().windows(), vec![1, 2]);
    assert_eq!(w.active_id(), 4);
}

#[test]
fn moving_a_window_keeps_the_others() {
    let mut w = Workspaces::new();
    w.output_added("DP-1");
    w.active().insert_tiled(1);
    w.active().insert_tiled(2);
    let live = live(&[1, 2]);
    w.move_window_to(1, 7, &live);
    assert_eq!(w.get(1).unwrap().windows(), vec![2]);
    assert_eq!(w.get(7).unwrap().windows(), vec![1]);
    assert_eq!(w.find_workspace(1), Some(7));
}

#[test]
fn a_monitor_gets_back_its_own_desk_before_an_unplaced_one() {
    let mut w = Workspaces::new();
    let live = live(&[1, 2]);
    w.active().insert_tiled(1);
    // desk 4 is made before any monitor exists: it is unplaced
    w.move_window_to(1, 4, &live);
    w.output_added("HDMI-A-1");
    assert_eq!(w.shown_on("HDMI-A-1"), Some(1));
    w.switch_to(6);
    w.active().insert_tiled(2);
    w.output_removed("HDMI-A-1");
    // desk 4 (unplaced) is lower, but desk 6 was this monitor's
    w.output_added("HDMI-A-1");
    assert_eq!(w.shown_on("HDMI-A-1"), Some(6));
    assert_eq!(w.active_id(), 6);
    // a second monitor takes the unplaced desk
    w.output_added("DP-1");
    assert_eq!(w.shown_on("DP-1"), Some(4));
}

#[test]
fn switching_away_from_an_empty_unplaced_desk_drops_it() {
    let mut ws = Workspaces::new();
    assert!(ws.switch_to(2).is_empty());
    assert_eq!(ws.active_id(), 2);
    assert_eq!(ws.previous_id(), 1);
    assert!(ws.get(1).is_none());
    assert!(ws.get(2).is_some());
    assert_eq!(ws.shown().to_vec(), vec![(String::new(), 2)]);
}
