use vendiwm::actions::{direction_candidates, geometry_of, join_args, ActionContext, Effect, Reply};
use vendiwm::ipc::{Request, SplitDir};
use vendiwm::geometry::Rect;
use vendiwm::input::{Action, Dir};
use vendiwm::layout::{Direction, LayoutMode};
use vendiwm::workspaces::Workspaces;

fn ctx(live: &[u32], viewport: Option<Rect>, mapped: &[(u32, Rect)]) -> ActionContext {
    ActionContext { live: live.to_vec(), viewport, mapped: mapped.to_vec() }
}

fn desks_with(tiles: &[u32]) -> Workspaces {
    let mut w = Workspaces::new();
    w.output_added("DP-1");
    for t in tiles {
        w.active().insert_tiled(*t);
    }
    w
}

fn run(w: &mut Workspaces, a: Action, c: &ActionContext) -> Effect {
    assert!(w.has_room());
    assert!(w.can_run(&a, c));
    w.run_action(a, c)
}

#[test]
fn spawn_is_left_to_the_compositor() {
    let mut w = desks_with(&[1]);
    let c = ctx(&[1], None, &[]);
    match run(&mut w, Action::Spawn("foot".to_string()), &c) {
        Effect::Spawn(cmd) => assert_eq!(cmd, "foot"),
        other => panic!("unexpected {:?}", other),
    }
    assert_eq!(w.active_ref().windows(), vec![1]);
}

#[test]
fn close_and_opacity_name_the_focused_window() {
    let mut w = desks_with(&[1, 2]);
    let c = ctx(&[1, 2], None, &[]);
    assert!(matches!(run(&mut w, Action::Close, &c), Effect::Close(2)));
    assert!(matches!(run(&mut w, Action::CycleOpacity, &c), Effect::CycleOpacity(2)));
    let mut empty = desks_with(&[]);
    let c0 = ctx(&[], None, &[]);
    assert!(matches!(run(&mut empty, Action::Close, &c0), Effect::Nothing));
    assert!(matches!(run(&mut empty, Action::Kill, &c0), Effect::Nothing));
}

#[test]
fn kill_drops_the_window_at_once() {
    let mut w = desks_with(&[1, 2]);
    let c = ctx(&[1, 2], None, &[]);
    assert!(matches!(run(&mut w, Action::Kill, &c), Effect::Kill(2)));
    assert_eq!(w.active_ref().windows(), vec![1]);
    assert_eq!(w.find_workspace(2), None);
}

#[test]
fn focus_next_and_prev_wrap() {
    let mut w = desks_with(&[1, 2, 3]);
    let c = ctx(&[1, 2, 3], None, &[]);
    assert_eq!(w.active_ref().focused_window(&c.live), Some(3));
    run(&mut w, Action::FocusNext, &c);
    assert_eq!(w.active_ref().focused_window(&c.live), Some(1));
    run(&mut w, Action::FocusPrev, &c);
    assert_eq!(w.active_ref().focused_window(&c.live), Some(3));
}

#[test]
fn candidates_keep_only_mapped_windows() {
    let mapped = vec![(3, Rect::new(0, 0, 10, 10)), (1, Rect::new(5, 5, 1, 1)), (3, Rect::new(9, 9, 9, 9))];
    assert_eq!(geometry_of(&mapped, 3), Some(Rect::new(0, 0, 10, 10)));
    assert_eq!(geometry_of(&mapped, 2), None);
    let c = direction_candidates(&vec![1, 2, 3], &mapped);
    assert_eq!(c, vec![(1, Rect::new(5, 5, 1, 1)), (3, Rect::new(0, 0, 10, 10))]);
}

#[test]
fn focus_dir_picks_the_neighbour() {
    let mut w = desks_with(&[1, 2]);
    let mapped = [(1, Rect::new(0, 0, 100, 100)), (2, Rect::new(100, 0, 100, 100))];
    let c = ctx(&[1, 2], None, &mapped);
    assert_eq!(w.target_in_dir(&c, Dir::Left), Some(1));
    assert_eq!(w.target_in_dir(&c, Dir::Right), None);
    run(&mut w, Action::FocusDir(Dir::Left), &c);
    assert_eq!(w.active_ref().focused_window(&c.live), Some(1));
    // nothing to the left of 1: focus stays
    run(&mut w, Action::FocusDir(Dir::Left), &c);
    assert_eq!(w.active_ref().focused_window(&c.live), Some(1));
}

#[test]
fn focus_dir_without_geometry_does_nothing() {
    let mut w = desks_with(&[1, 2]);
    let c = ctx(&[1, 2], None, &[(1, Rect::new(0, 0, 100, 100))]);
    assert_eq!(w.target_in_dir(&c, Dir::Left), None);
    run(&mut w, Action::FocusDir(Dir::Left), &c);
    assert_eq!(w.active_ref().focused_window(&c.live), Some(2));
}

#[test]
fn move_dir_swaps_tiles_and_keeps_focus() {
    let mut w = desks_with(&[1, 2]);
    let mapped = [(1, Rect::new(0, 0, 100, 100)), (2, Rect::new(100, 0, 100, 100))];
    let c = ctx(&[1, 2], None, &mapped);
    run(&mut w, Action::MoveDir(Dir::Left), &c);
    assert_eq!(w.active_ref().windows(), vec![2, 1]);
    assert_eq!(w.active_ref().focused_window(&c.live), Some(2));
}

#[test]
fn resize_grows_a_floating_window() {
    let mut w = desks_with(&[1]);
    let vp = Rect::new(0, 0, 1000, 800);
    let c = ctx(&[1], Some(vp), &[]);
    run(&mut w, Action::ToggleFloating, &c);
    assert_eq!(w.active_ref().floating, vec![(1, Rect::new(200, 160, 600, 480))]);
    run(&mut w, Action::ResizeDir(Dir::Right), &c);
    assert_eq!(w.active_ref().floating, vec![(1, Rect::new(200, 160, 648, 480))]);
    run(&mut w, Action::ResizeDir(Dir::Up), &c);
    assert_eq!(w.active_ref().floating, vec![(1, Rect::new(200, 160, 648, 432))]);
}

#[test]
fn toggle_floating_without_viewport_keeps_tiles() {
    let mut w = desks_with(&[1]);
    let c = ctx(&[1], None, &[]);
    run(&mut w, Action::ToggleFloating, &c);
    assert!(w.active_ref().floating.is_empty());
    assert_eq!(w.active_ref().windows(), vec![1]);
}

#[test]
fn toggle_floating_twice_tiles_again() {
    let mut w = desks_with(&[1, 2]);
    let c = ctx(&[1, 2], Some(Rect::new(0, 0, 1000, 800)), &[]);
    run(&mut w, Action::ToggleFloating, &c);
    assert_eq!(w.active_ref().focus_floating, Some(2));
    run(&mut w, Action::ToggleFloating, &c);
    assert!(w.active_ref().floating.is_empty());
    assert_eq!(w.active_ref().focus_floating, None);
    assert_eq!(w.active_ref().focused_window(&c.live), Some(2));
}

#[test]
fn center_floating_recenters() {
    let mut w = desks_with(&[1]);
    let c = ctx(&[1], Some(Rect::new(0, 0, 1000, 800)), &[]);
    run(&mut w, Action::ToggleFloating, &c);
    run(&mut w, Action::ResizeDir(Dir::Right), &c);
    run(&mut w, Action::CenterFloating, &c);
    assert_eq!(w.active_ref().floating, vec![(1, Rect::new(176, 160, 648, 480))]);
}

#[test]
fn fullscreen_toggles() {
    let mut w = desks_with(&[1]);
    let c = ctx(&[1], None, &[]);
    run(&mut w, Action::ToggleFullscreen, &c);
    assert_eq!(w.active_ref().fullscreen, Some(1));
    run(&mut w, Action::ToggleFullscreen, &c);
    assert_eq!(w.active_ref().fullscreen, None);
}

#[test]
fn cycle_layout_toasts_the_new_mode() {
    let mut w = desks_with(&[1]);
    let c = ctx(&[1], None, &[]);
    match run(&mut w, Action::CycleLayout, &c) {
        Effect::Toast(m) => assert_eq!(m, w.active_ref().mode),
        other => panic!("unexpected {:?}", other),
    }
    assert_ne!(w.active_ref().mode, LayoutMode::Tiling);
}

#[test]
fn next_split_is_remembered() {
    let mut w = desks_with(&[1]);
    let c = ctx(&[1], None, &[]);
    run(&mut w, Action::SetNextSplit(Direction::Vertical), &c);
    assert_eq!(w.active_ref().windows(), vec![1]);
}

#[test]
fn workspace_switch_hides_the_old_desk() {
    let mut w = desks_with(&[1, 2]);
    let c = ctx(&[1, 2], None, &[]);
    match run(&mut w, Action::Workspace(3), &c) {
        Effect::Hide(h) => assert_eq!(h, vec![1, 2]),
        other => panic!("unexpected {:?}", other),
    }
    assert_eq!(w.active_id(), 3);
    match run(&mut w, Action::WorkspaceLast, &c) {
        Effect::Hide(h) => assert!(h.is_empty()),
        other => panic!("unexpected {:?}", other),
    }
    assert_eq!(w.active_id(), 1);
}

#[test]
fn move_to_workspace_unmaps_the_window() {
    let mut w = desks_with(&[1, 2]);
    let c = ctx(&[1, 2], None, &[]);
    match run(&mut w, Action::MoveToWorkspace(4), &c) {
        Effect::Hide(h) => assert_eq!(h, vec![2]),
        other => panic!("unexpected {:?}", other),
    }
    assert_eq!(w.active_id(), 1);
    assert_eq!(w.find_workspace(2), Some(4));
    // moving onto the desk it is on hides nothing
    match run(&mut w, Action::MoveToWorkspace(1), &c) {
        Effect::Hide(h) => assert!(h.is_empty()),
        other => panic!("unexpected {:?}", other),
    }
}

#[test]
fn move_and_follow_lands_with_the_window() {
    let mut w = desks_with(&[1, 2]);
    let c = ctx(&[1, 2], None, &[]);
    match run(&mut w, Action::MoveToWorkspaceFollow(5), &c) {
        Effect::Hide(h) => assert_eq!(h, vec![1]),
        other => panic!("unexpected {:?}", other),
    }
    assert_eq!(w.active_id(), 5);
    assert_eq!(w.active_ref().windows(), vec![2]);
}

#[test]
fn workspace_next_and_prev() {
    let mut w = desks_with(&[1]);
    let c = ctx(&[1], None, &[]);
    // past the last desk a non-empty desk spawns a fresh one
    match run(&mut w, Action::WorkspaceNext, &c) {
        Effect::Hide(h) => assert_eq!(h, vec![1]),
        other => panic!("unexpected {:?}", other),
    }
    assert_eq!(w.active_id(), 2);
    // an empty last desk goes nowhere
    assert!(matches!(run(&mut w, Action::WorkspaceNext, &c), Effect::Nothing));
    assert_eq!(w.active_id(), 2);
    run(&mut w, Action::WorkspacePrev, &c);
    assert_eq!(w.active_id(), 1);
    assert!(matches!(run(&mut w, Action::WorkspacePrev, &c), Effect::Nothing));
}

#[test]
fn outside_effects_pass_through() {
    let mut w = desks_with(&[1]);
    let c = ctx(&[1], None, &[]);
    assert!(matches!(run(&mut w, Action::ReloadConfig, &c), Effect::ReloadConfig));
    assert!(matches!(run(&mut w, Action::ToggleOverview, &c), Effect::ToggleOverview));
    assert!(matches!(run(&mut w, Action::ToggleBlur, &c), Effect::ToggleBlur));
    assert!(matches!(run(&mut w, Action::Lock, &c), Effect::Lock));
    assert!(matches!(run(&mut w, Action::Quit, &c), Effect::Quit));
    assert_eq!(w.active_ref().windows(), vec![1]);
}

#[test]
fn can_run_refuses_overflowing_geometry() {
    let w = desks_with(&[1]);
    let huge = ctx(&[1], Some(Rect::new(0, 0, i32::MAX, 10)), &[]);
    assert!(!w.can_run(&Action::ToggleFloating, &huge));
    assert!(w.can_run(&Action::Quit, &huge));
}

#[test]
fn focus_by_id_switches_to_the_window() {
    let mut w = desks_with(&[1, 2]);
    w.switch_to(3);
    w.active().insert_tiled(5);
    assert_eq!(w.focus_window_by_id(99), None);
    assert_eq!(w.active_id(), 3);
    assert_eq!(w.focus_window_by_id(1), Some(vec![5]));
    assert_eq!(w.active_id(), 1);
    assert_eq!(w.active_ref().focused_window(&vec![1, 2, 5]), Some(1));
    // already on its desk: nothing to hide
    assert_eq!(w.focus_window_by_id(2), Some(vec![]));
    assert_eq!(w.active_ref().focused_window(&vec![1, 2, 5]), Some(2));
}

#[test]
fn focus_next_then_prev_returns() {
    let mut w = desks_with(&[1, 2, 3]);
    let c = ctx(&[1, 2, 3], None, &[]);
    run(&mut w, Action::FocusPrev, &c);
    let before = w.active_ref().focused_window(&c.live);
    run(&mut w, Action::FocusNext, &c);
    run(&mut w, Action::FocusPrev, &c);
    assert_eq!(w.active_ref().focused_window(&c.live), before);
}

#[test]
fn spawn_args_are_joined_with_spaces() {
    assert_eq!(join_args(&vec![]), "");
    assert_eq!(join_args(&vec!["foot".to_string()]), "foot");
    assert_eq!(join_args(&vec!["foot".to_string(), "-e".to_string(), "htop".to_string()]), "foot -e htop");
    let mut w = desks_with(&[1]);
    let r = w.answer_request(Request::Spawn { args: vec!["a b".to_string(), "c".to_string()] }, &vec![1]);
    match r {
        Reply::Spawn(cmd) => assert_eq!(cmd, "a b c"),
        other => panic!("unexpected {:?}", other),
    }
}

#[test]
fn focus_request_reports_unknown_windows() {
    let mut w = desks_with(&[1, 2]);
    assert!(matches!(w.answer_request(Request::Focus { window: 9 }, &vec![1, 2]), Reply::NoWindow(9)));
    match w.answer_request(Request::Focus { window: 1 }, &vec![1, 2]) {
        Reply::Done(h) => assert!(h.is_empty()),
        other => panic!("unexpected {:?}", other),
    }
    assert_eq!(w.active_ref().focused_window(&vec![1, 2]), Some(1));
}

#[test]
fn close_request_targets() {
    let mut w = desks_with(&[1, 2]);
    let live = vec![1, 2];
    assert!(matches!(w.answer_request(Request::Close { window: None }, &live), Reply::Close(2)));
    assert!(matches!(w.answer_request(Request::Close { window: Some(1) }, &live), Reply::Close(1)));
    assert!(matches!(w.answer_request(Request::Close { window: Some(7) }, &live), Reply::NoSuchWindow));
    let mut empty = desks_with(&[]);
    assert!(matches!(empty.answer_request(Request::Close { window: None }, &vec![]), Reply::NoSuchWindow));
}

#[test]
fn desk_requests_change_the_desks() {
    let mut w = desks_with(&[1, 2]);
    let live = vec![1, 2];
    match w.answer_request(Request::Move { window: 0, to_workspace: 2 }, &live) {
        Reply::Done(h) => assert_eq!(h, vec![2]),
        other => panic!("unexpected {:?}", other),
    }
    assert_eq!(w.find_workspace(2), Some(2));
    assert!(matches!(w.answer_request(Request::Split { dir: SplitDir::Vertical }, &live), Reply::Done(_)));
    match w.answer_request(Request::Workspace { id: 2 }, &live) {
        Reply::Done(h) => assert_eq!(h, vec![1]),
        other => panic!("unexpected {:?}", other),
    }
    assert_eq!(w.active_id(), 2);
    assert!(matches!(w.answer_request(Request::ListWindows, &live), Reply::Pass(Request::ListWindows)));
    assert!(matches!(w.answer_request(Request::Lock, &live), Reply::Pass(Request::Lock)));
}

#[test]
fn a_new_window_takes_focus_from_floating() {
    let mut w = desks_with(&[1]);
    let c = ctx(&[1, 2], Some(Rect::new(0, 0, 1000, 800)), &[]);
    run(&mut w, Action::ToggleFloating, &c);
    assert_eq!(w.active_ref().focus_floating, Some(1));
    w.open_window(2);
    assert_eq!(w.active_ref().focus_floating, None);
    assert_eq!(w.active_ref().focused_window(&c.live), Some(2));
    assert_eq!(w.active_ref().windows(), vec![2, 1]);
}

#[test]
fn overview_opens_only_with_windows() {
    let empty = desks_with(&[]);
    assert!(!empty.overview_toggle(false));
    let w = desks_with(&[1]);
    assert!(w.overview_toggle(false));
    assert!(!w.overview_toggle(true));
}
