use vendiwm::outputs::{
    classify_toplevel, fresh_connectors, name_le_exec, name_order, pick_mode, place_outputs, stale_outputs,
    x11_should_float, ConnectorInfo, DrivenOutput, ModeInfo, OutputSlot, WindowType, X11Hints,
};

fn mode(w: u16, h: u16, refresh: u32, preferred: bool) -> ModeInfo {
    ModeInfo { w, h, refresh, preferred }
}

fn modes() -> Vec<ModeInfo> {
    vec![
        mode(2560, 1440, 60, false),
        mode(2560, 1440, 144, true),
        mode(1920, 1080, 60, false),
        mode(2560, 1440, 120, false),
        mode(1920, 1080, 75, false),
    ]
}

#[test]
fn exact_refresh_wins() {
    assert_eq!(pick_mode(&modes(), Some((2560, 1440, Some(120)))), Some(3));
}

#[test]
fn closest_refresh_of_the_size() {
    assert_eq!(pick_mode(&modes(), Some((2560, 1440, Some(100)))), Some(3));
    assert_eq!(pick_mode(&modes(), Some((1920, 1080, Some(70)))), Some(4));
    // a tie keeps the first
    let ms = vec![mode(2560, 1440, 60, false), mode(2560, 1440, 144, true)];
    assert_eq!(pick_mode(&ms, Some((2560, 1440, Some(102)))), Some(0));
}

#[test]
fn size_without_refresh_takes_the_last_listed() {
    assert_eq!(pick_mode(&modes(), Some((1920, 1080, None))), Some(4));
}

#[test]
fn unknown_size_falls_back_to_preferred() {
    assert_eq!(pick_mode(&modes(), Some((800, 600, Some(60)))), Some(1));
    assert_eq!(pick_mode(&modes(), None), Some(1));
}

#[test]
fn no_preferred_means_first() {
    let ms = vec![mode(1024, 768, 60, false), mode(800, 600, 60, false)];
    assert_eq!(pick_mode(&ms, None), Some(0));
    assert_eq!(pick_mode(&vec![], None), None);
}

fn hints() -> X11Hints {
    X11Hints { popup: false, transient: false, window_type: None, min_size: None, max_size: None }
}

#[test]
fn x11_float_rules() {
    assert!(!x11_should_float(&hints()));
    assert!(x11_should_float(&X11Hints { popup: true, ..hints() }));
    assert!(x11_should_float(&X11Hints { transient: true, ..hints() }));
    assert!(x11_should_float(&X11Hints { window_type: Some(WindowType::Dialog), ..hints() }));
    assert!(!x11_should_float(&X11Hints { window_type: Some(WindowType::Other), ..hints() }));
    assert!(x11_should_float(&X11Hints { min_size: Some((400, 300)), max_size: Some((400, 300)), ..hints() }));
    assert!(!x11_should_float(&X11Hints { min_size: Some((0, 300)), max_size: Some((0, 300)), ..hints() }));
    assert!(!x11_should_float(&X11Hints { min_size: Some((400, 300)), max_size: Some((800, 600)), ..hints() }));
}

#[test]
fn toplevels_are_classified_once_they_say_something() {
    assert_eq!(classify_toplevel("", false, (0, 0), (0, 0)), None);
    assert_eq!(classify_toplevel("foot", false, (0, 0), (0, 0)), Some(false));
    assert_eq!(classify_toplevel("vendi-float", false, (0, 0), (0, 0)), Some(true));
    assert_eq!(classify_toplevel("", true, (0, 0), (0, 0)), Some(true));
    assert_eq!(classify_toplevel("", false, (400, 300), (400, 300)), Some(true));
    assert_eq!(classify_toplevel("discord", false, (400, 300), (800, 600)), Some(false));
}

#[test]
fn rescan_tears_down_gone_unplugged_and_changed_outputs() {
    let a = mode(1920, 1080, 60, true);
    let b = mode(1280, 720, 60, false);
    let cs = vec![
        ConnectorInfo { id: 10, connected: true, modes: vec![a, b] },
        ConnectorInfo { id: 11, connected: false, modes: vec![a] },
    ];
    let outs = vec![
        DrivenOutput { connector: 10, mode: a, want: None },
        DrivenOutput { connector: 11, mode: a, want: None },
        DrivenOutput { connector: 12, mode: a, want: None },
        DrivenOutput { connector: 10, mode: b, want: None },
        DrivenOutput { connector: 10, mode: b, want: Some((1280, 720, None)) },
    ];
    assert_eq!(stale_outputs(&outs, &cs), vec![1, 2, 3]);
}

#[test]
fn rescan_brings_up_plugged_connectors_without_an_output() {
    let a = mode(1920, 1080, 60, true);
    let cs = vec![
        ConnectorInfo { id: 10, connected: true, modes: vec![a] },
        ConnectorInfo { id: 11, connected: false, modes: vec![a] },
        ConnectorInfo { id: 13, connected: true, modes: vec![a] },
    ];
    let outs = vec![DrivenOutput { connector: 10, mode: a, want: None }];
    assert_eq!(fresh_connectors(&outs, &cs), vec![2]);
}

#[test]
fn outputs_pack_left_to_right_by_name() {
    assert!(name_le_exec("DP-1", "DP-10"));
    assert!(!name_le_exec("b", "a"));
    assert!(name_le_exec("", ""));
    let outs = vec![
        OutputSlot { name: "HDMI-A-1".to_string(), width: 1280, position: None },
        OutputSlot { name: "DP-1".to_string(), width: 1920, position: None },
        OutputSlot { name: "DP-2".to_string(), width: 2560, position: Some((5000, 0)) },
    ];
    assert_eq!(name_order(&outs), vec![1, 2, 0]);
    assert_eq!(place_outputs(&outs), vec![(1, (0, 0)), (2, (5000, 0)), (0, (1920, 0))]);
}
