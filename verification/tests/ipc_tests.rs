use vendiwm::config::{Bind, Chord};
use vendiwm::geometry::Rect;
use vendiwm::input::Action;
use vendiwm::ipc::{
    bind_infos, event_kind, events_for, focused_event, screenshot_path, title_event,
    wallpaper_change, WallpaperChange, take_lines, window_info, workspace_infos,
    workspaces_event, Event, EventKind, SplitDir,
};
use vendiwm::layout::Direction;
use vendiwm::workspaces::Workspaces;

#[test]
fn split_dir_converts() {
    assert_eq!(Direction::from(SplitDir::Horizontal), Direction::Horizontal);
    assert_eq!(Direction::from(SplitDir::Vertical), Direction::Vertical);
}

#[test]
fn event_families() {
    assert_eq!(event_kind(&Event::WindowOpened { id: 1, title: "a".into() }), EventKind::Window);
    assert_eq!(event_kind(&Event::WindowClosed { id: 1 }), EventKind::Window);
    assert_eq!(event_kind(&Event::WindowFocused { id: 0, title: String::new() }), EventKind::Window);
    assert_eq!(
        event_kind(&Event::WindowTitle { id: 1, title: "t".into(), focused: true }),
        EventKind::Window
    );
    assert_eq!(
        event_kind(&Event::WorkspacesChanged { active: 1, workspaces: vec![] }),
        EventKind::Workspace
    );
    assert_eq!(event_kind(&Event::Overview { active: true }), EventKind::Overview);
}

#[test]
fn subscribers_get_only_their_families() {
    let events = vec![
        Event::WindowClosed { id: 3 },
        Event::Overview { active: false },
        Event::WorkspacesChanged { active: 2, workspaces: vec![] },
        Event::WindowOpened { id: 4, title: "x".into() },
    ];
    assert_eq!(events_for(&vec![EventKind::Window], &events), vec![0, 3]);
    assert_eq!(events_for(&vec![EventKind::Overview, EventKind::Workspace], &events), vec![1, 2]);
    assert_eq!(events_for(&vec![], &events), Vec::<usize>::new());
}

#[test]
fn complete_lines_are_cut_off() {
    let mut buf = b"{\"cmd\":\"lock\"}\n\n{\"cmd\":\"list-binds\"}\n{\"cm".to_vec();
    let lines = take_lines(&mut buf);
    assert_eq!(
        lines,
        vec![b"{\"cmd\":\"lock\"}".to_vec(), Vec::new(), b"{\"cmd\":\"list-binds\"}".to_vec()]
    );
    assert_eq!(buf, b"{\"cm".to_vec());
    buf.extend_from_slice(b"d\":\"lock\"}\n");
    assert_eq!(take_lines(&mut buf), vec![b"{\"cmd\":\"lock\"}".to_vec()]);
    assert!(buf.is_empty());
}

#[test]
fn no_newline_no_message() {
    let mut buf = b"partial".to_vec();
    assert!(take_lines(&mut buf).is_empty());
    assert_eq!(buf, b"partial".to_vec());
}

#[test]
fn workspace_list_marks_the_focused_desk() {
    let list = vec![(1, 2, "DP-1".to_string(), true), (4, 0, "DP-1".to_string(), false)];
    let infos = workspace_infos(4, &list);
    assert_eq!(infos.len(), 2);
    assert_eq!((infos[0].id, infos[0].focused, infos[0].windows), (1, false, 2));
    assert_eq!((infos[1].id, infos[1].focused, infos[1].windows), (4, true, 0));
}

#[test]
fn bind_list_in_config_order() {
    let chord = Chord { logo: true, ctrl: false, alt: false, shift: false, key: 0x71 };
    let binds = vec![Bind {
        chord,
        chord_text: "super+q".to_string(),
        action_text: "close".to_string(),
        action: Action::Close,
    }];
    let infos = bind_infos(&binds);
    assert_eq!(infos.len(), 1);
    assert_eq!(infos[0].chord, "super+q");
    assert_eq!(infos[0].action, "close");
}

#[test]
fn window_list_entries() {
    let mut w = Workspaces::new();
    w.output_added("DP-1");
    w.active().insert_tiled(1);
    w.active().floating.push((2, Rect::new(0, 0, 10, 10)));
    let a = window_info(&w, 1, "term".to_string(), Some(1));
    assert_eq!((a.id, a.focused, a.workspace, a.floating), (1, true, 1, false));
    assert_eq!(a.title, "term");
    let b = window_info(&w, 2, String::new(), Some(1));
    assert_eq!((b.focused, b.workspace, b.floating), (false, 1, true));
    let c = window_info(&w, 9, String::new(), None);
    assert_eq!((c.workspace, c.floating), (0, false));
}

#[test]
fn workspaces_changed_event() {
    let list = vec![(1, 3, "DP-1".to_string(), true), (2, 0, "DP-1".to_string(), false)];
    match workspaces_event(2, &list) {
        Event::WorkspacesChanged { active, workspaces } => {
            assert_eq!(active, 2);
            assert_eq!(workspaces.len(), 2);
            assert!(!workspaces[0].focused && workspaces[1].focused);
            assert_eq!(workspaces[0].windows, 3);
        }
        _ => panic!("expected a workspaces event"),
    }
}

#[test]
fn focus_events() {
    match focused_event(Some(4), "term".to_string()) {
        Event::WindowFocused { id, title } => {
            assert_eq!(id, 4);
            assert_eq!(title, "term");
        }
        _ => panic!("expected a focus event"),
    }
    match focused_event(None, "ignored".to_string()) {
        Event::WindowFocused { id, title } => {
            assert_eq!(id, 0);
            assert_eq!(title, "");
        }
        _ => panic!("expected a focus event"),
    }
}

#[test]
fn a_title_is_announced_only_when_it_changes() {
    let old = "vim".to_string();
    assert!(title_event(Some(&old), 4, "vim".to_string(), true).is_none());
    match title_event(Some(&old), 4, "vim — notes".to_string(), true) {
        Some(Event::WindowTitle { id, title, focused }) => {
            assert_eq!(id, 4);
            assert_eq!(title, "vim — notes");
            assert!(focused);
        }
        _ => panic!("expected a title event"),
    }
    match title_event(None, 9, String::new(), false) {
        Some(Event::WindowTitle { id, title, focused }) => {
            assert_eq!(id, 9);
            assert!(title.is_empty());
            assert!(!focused);
        }
        _ => panic!("a first title is a change"),
    }
}

#[test]
fn wallpaper_requests_clear_set_or_refuse() {
    assert!(matches!(wallpaper_change("default".to_string(), false), WallpaperChange::Clear));
    assert!(matches!(wallpaper_change(String::new(), true), WallpaperChange::Clear));
    match wallpaper_change("/home/u/sea.png".to_string(), true) {
        WallpaperChange::SetTo(p) => assert_eq!(p, "/home/u/sea.png"),
        _ => panic!("expected the file to be set"),
    }
    match wallpaper_change("/nope.png".to_string(), false) {
        WallpaperChange::NoSuchFile(p) => assert_eq!(p, "/nope.png"),
        _ => panic!("expected a refusal"),
    }
    assert!(matches!(wallpaper_change("Default".to_string(), false), WallpaperChange::NoSuchFile(_)));
}

#[test]
fn screenshots_go_to_tmp_unless_told_otherwise() {
    assert_eq!(screenshot_path(None), "/tmp/vendiwm-shot.png");
    assert_eq!(screenshot_path(Some("/home/u/a.png".to_string())), "/home/u/a.png");
}
