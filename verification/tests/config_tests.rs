use vendiwm::config::{
    key_lookups,
    apply_theme, chord_from, chord_with_key, hex_color, merge_binds, parse_action, parse_bind,
    parse_binds, split_chord, upsert_bind, ActionError, Bind, BindEntry, BindsBlock, Chord,
    ChordError, Config, ConfigError, Document, Rgba, Theme, ThemeBlock,
};
use vendiwm::input::{Action, Dir, Modifiers};
use vendiwm::layout::Direction;

fn entry(chord: &str, action: &str) -> BindEntry {
    BindEntry { chord: chord.to_string(), action: action.to_string() }
}

fn no_theme() -> ThemeBlock {
    ThemeBlock {
        accent: None,
        inactive: None,
        background: None,
        radius: None,
        border: None,
        gap: None,
        margin: None,
        wallpaper: None,
        blur: None,
    }
}

#[test]
fn chord_super_q_parses() {
    let (m, name) = split_chord("super+q").ok().unwrap();
    assert_eq!(name, "q");
    let c = chord_with_key(m, name, 0x71).ok().unwrap();
    assert_eq!(c, Chord { logo: true, ctrl: false, alt: false, shift: false, key: 0x71 });
}

#[test]
fn chord_modifiers_are_case_insensitive_and_trimmed() {
    let (m, name) = split_chord(" SUPER + Shift+ ctrl +alt+ Return ").ok().unwrap();
    assert_eq!(m, Modifiers { logo: true, ctrl: true, alt: true, shift: true });
    assert_eq!(name, "Return");
}

#[test]
fn chord_modifier_aliases() {
    for s in ["logo+a", "mod+a", "win+a"] {
        let (m, _) = split_chord(s).ok().unwrap();
        assert!(m.logo);
    }
    let (m, _) = split_chord("control+mod1+a").ok().unwrap();
    assert!(m.ctrl && m.alt && !m.logo && !m.shift);
}

#[test]
fn chord_without_modifiers() {
    let (m, name) = split_chord("print").ok().unwrap();
    assert_eq!(m, Modifiers { logo: false, ctrl: false, alt: false, shift: false });
    assert_eq!(name, "print");
}

#[test]
fn unknown_modifier_is_refused() {
    match split_chord("super+Hyper+x") {
        Err(ChordError::UnknownModifier(n)) => assert_eq!(n, "hyper"),
        _ => panic!("expected an unknown modifier"),
    }
}

#[test]
fn unknown_key_is_refused() {
    let (m, name) = split_chord("super+nosuchkey").ok().unwrap();
    match chord_with_key(m, name, 0) {
        Err(ChordError::UnknownKey(n)) => assert_eq!(n, "nosuchkey"),
        _ => panic!("expected an unknown key"),
    }
}

#[test]
fn empty_chord_names_an_empty_key() {
    let (_, name) = split_chord("super+").ok().unwrap();
    assert_eq!(name, "");
}

#[test]
fn chord_from_runtime_state() {
    let m = Modifiers { logo: true, ctrl: false, alt: true, shift: false };
    assert_eq!(chord_from(&m, 0xff0d), Chord { logo: true, ctrl: false, alt: true, shift: false, key: 0xff0d });
}

#[test]
fn action_verbs() {
    assert!(matches!(parse_action("close"), Ok(Action::Close)));
    assert!(matches!(parse_action("focus-next"), Ok(Action::FocusNext)));
    assert!(matches!(parse_action("focus-prev"), Ok(Action::FocusPrev)));
    assert!(matches!(parse_action("focus-left"), Ok(Action::FocusDir(Dir::Left))));
    assert!(matches!(parse_action("focus-right"), Ok(Action::FocusDir(Dir::Right))));
    assert!(matches!(parse_action("focus-up"), Ok(Action::FocusDir(Dir::Up))));
    assert!(matches!(parse_action("focus-down"), Ok(Action::FocusDir(Dir::Down))));
    assert!(matches!(parse_action("move-left"), Ok(Action::MoveDir(Dir::Left))));
    assert!(matches!(parse_action("move-right"), Ok(Action::MoveDir(Dir::Right))));
    assert!(matches!(parse_action("move-up"), Ok(Action::MoveDir(Dir::Up))));
    assert!(matches!(parse_action("move-down"), Ok(Action::MoveDir(Dir::Down))));
    assert!(matches!(parse_action("resize-left"), Ok(Action::ResizeDir(Dir::Left))));
    assert!(matches!(parse_action("resize-right"), Ok(Action::ResizeDir(Dir::Right))));
    assert!(matches!(parse_action("resize-up"), Ok(Action::ResizeDir(Dir::Up))));
    assert!(matches!(parse_action("resize-down"), Ok(Action::ResizeDir(Dir::Down))));
    assert!(matches!(parse_action("split-horizontal"), Ok(Action::SetNextSplit(Direction::Horizontal))));
    assert!(matches!(parse_action("split-vertical"), Ok(Action::SetNextSplit(Direction::Vertical))));
    assert!(matches!(parse_action("toggle-floating"), Ok(Action::ToggleFloating)));
    assert!(matches!(parse_action("fullscreen"), Ok(Action::ToggleFullscreen)));
    assert!(matches!(parse_action("overview"), Ok(Action::ToggleOverview)));
    assert!(matches!(parse_action("lock"), Ok(Action::Lock)));
    assert!(matches!(parse_action("quit"), Ok(Action::Quit)));
}

#[test]
fn spawn_keeps_the_trimmed_command() {
    match parse_action("spawn   sh -c 'alacritty || foot'  ") {
        Ok(Action::Spawn(c)) => assert_eq!(c, "sh -c 'alacritty || foot'"),
        _ => panic!("expected spawn"),
    }
    match parse_action("spawn") {
        Ok(Action::Spawn(c)) => assert_eq!(c, ""),
        _ => panic!("expected spawn"),
    }
    match parse_action("spawn\tfirefox") {
        Ok(Action::Spawn(c)) => assert_eq!(c, "firefox"),
        _ => panic!("expected spawn"),
    }
}

#[test]
fn workspace_numbers() {
    assert!(matches!(parse_action("workspace 3"), Ok(Action::Workspace(3))));
    assert!(matches!(parse_action("workspace   12  "), Ok(Action::Workspace(12))));
    assert!(matches!(parse_action("workspace +7"), Ok(Action::Workspace(7))));
    assert!(matches!(parse_action("workspace 4294967295"), Ok(Action::Workspace(4294967295))));
    assert!(matches!(parse_action("move-to-workspace 9"), Ok(Action::MoveToWorkspace(9))));
}

#[test]
fn bad_workspace_numbers() {
    for s in [
        "workspace",
        "workspace x",
        "workspace -1",
        "workspace +",
        "workspace 4294967296",
        "workspace 1 2",
        "move-to-workspace",
    ] {
        assert!(matches!(parse_action(s), Err(ActionError::BadWorkspaceNumber)), "{}", s);
    }
}

#[test]
fn unknown_verbs() {
    match parse_action("frobnicate now") {
        Err(ActionError::UnknownVerb(v)) => assert_eq!(v, "frobnicate"),
        _ => panic!("expected unknown verb"),
    }
    match parse_action("") {
        Err(ActionError::UnknownVerb(v)) => assert_eq!(v, ""),
        _ => panic!("expected unknown verb"),
    }
    // a leading space makes the verb empty
    match parse_action(" close") {
        Err(ActionError::UnknownVerb(v)) => assert_eq!(v, ""),
        _ => panic!("expected unknown verb"),
    }
}

#[test]
fn hex_colors() {
    assert_eq!(hex_color("#cba6f7"), Some(Rgba { r: 0xcb, g: 0xa6, b: 0xf7, a: 0xff }));
    assert_eq!(hex_color("  #11223344 "), Some(Rgba { r: 0x11, g: 0x22, b: 0x33, a: 0x44 }));
    assert_eq!(hex_color("#ABCDEF"), Some(Rgba { r: 0xab, g: 0xcd, b: 0xef, a: 0xff }));
    assert_eq!(hex_color("#+f+f+f"), Some(Rgba { r: 15, g: 15, b: 15, a: 255 }));
    assert_eq!(hex_color("#12345"), None);
    assert_eq!(hex_color("cba6f7"), None);
    assert_eq!(hex_color("#gg0000"), None);
    assert_eq!(hex_color("#-10000"), None);
    assert_eq!(hex_color("#\u{e9}\u{e9}\u{e9}"), None);
    assert_eq!(hex_color(""), None);
}

#[test]
fn default_theme() {
    let t = Theme::default();
    assert_eq!(t.accent, Rgba { r: 0xcb, g: 0xa6, b: 0xf7, a: 0xff });
    assert_eq!(t.inactive, Rgba { r: 0x45, g: 0x47, b: 0x5a, a: 0xff });
    assert_eq!(t.background, Rgba { r: 0x1e, g: 0x1e, b: 0x2e, a: 0xff });
    assert_eq!((t.radius, t.border, t.gap, t.margin), (12, 2, 10, 14));
    assert_eq!(t.wallpaper, None);
    assert!(t.blur);
}

#[test]
fn theme_block_overlays() {
    let mut b = no_theme();
    b.accent = Some("#ff0000".to_string());
    b.inactive = Some("not a color".to_string());
    b.gap = Some(4);
    b.border = Some((1i64 << 32) + 5);
    b.wallpaper = Some("/w.png".to_string());
    b.blur = Some(false);
    let t = apply_theme(Theme::default(), b);
    assert_eq!(t.accent, Rgba { r: 0xff, g: 0, b: 0, a: 0xff });
    assert_eq!(t.inactive, Theme::default().inactive);
    assert_eq!(t.gap, 4);
    assert_eq!(t.border, 5);
    assert_eq!(t.margin, 14);
    assert_eq!(t.wallpaper, Some("/w.png".to_string()));
    assert!(!t.blur);
}

fn bind(chord: Chord, text: &str, action: &str) -> Bind {
    Bind { chord, chord_text: text.to_string(), action_text: action.to_string(), action: Action::Close }
}

fn key(k: u32) -> Chord {
    Chord { logo: true, ctrl: false, alt: false, shift: false, key: k }
}

#[test]
fn later_bind_replaces_in_place() {
    let merged = merge_binds(vec![
        bind(key(1), "super+a", "close"),
        bind(key(2), "super+b", "quit"),
        bind(key(1), "super+A", "lock"),
    ]);
    assert_eq!(merged.len(), 2);
    assert_eq!(merged[0].chord, key(1));
    assert_eq!(merged[0].action_text, "lock");
    assert_eq!(merged[1].action_text, "quit");
}

#[test]
fn upsert_appends_new_chords() {
    let mut v = vec![bind(key(1), "a", "close")];
    upsert_bind(&mut v, bind(key(2), "b", "quit"));
    assert_eq!(v.len(), 2);
    upsert_bind(&mut v, bind(key(2), "b", "lock"));
    assert_eq!(v.len(), 2);
    assert_eq!(v[1].action_text, "lock");
}

#[test]
fn parse_one_bind() {
    let b = parse_bind(entry("super+q", "close"), 0x71).ok().unwrap();
    assert_eq!(b.chord, key(0x71));
    assert_eq!(b.chord_text, "super+q");
    assert!(matches!(b.action, Action::Close));
    match parse_bind(entry("super+q", "nope"), 0x71) {
        Err(ConfigError::Action(t, ActionError::UnknownVerb(v))) => {
            assert_eq!(t, "nope");
            assert_eq!(v, "nope");
        }
        _ => panic!("expected an action error"),
    }
    match parse_bind(entry("super+zz", "close"), 0) {
        Err(ConfigError::Chord(t, ChordError::UnknownKey(k))) => {
            assert_eq!(t, "super+zz");
            assert_eq!(k, "zz");
        }
        _ => panic!("expected a chord error"),
    }
}

#[test]
fn parse_binds_stops_at_the_first_error() {
    let es = vec![entry("super+q", "close"), entry("bogus+q", "close"), entry("super+j", "nope")];
    match parse_binds(es, &vec![0x71, 0x71, 0x6a]) {
        Err(ConfigError::Chord(t, ChordError::UnknownModifier(m))) => {
            assert_eq!(t, "bogus+q");
            assert_eq!(m, "bogus");
        }
        _ => panic!("expected the chord error of the second line"),
    }
}

/// Stands in for xkb: a one-letter name is the keysym of that letter.
fn ascii_key(name: String) -> u32 {
    assert!(!name.contains('\0'));
    let c: Vec<char> = name.chars().collect();
    if c.len() == 1 && c[0].is_ascii_alphanumeric() {
        c[0].to_ascii_lowercase() as u32
    } else {
        0
    }
}

fn doc(binds: Vec<BindEntry>, theme: Option<ThemeBlock>) -> Document {
    Document { binds: Some(BindsBlock { entries: binds }), theme }
}

#[test]
fn user_binds_overlay_defaults() {
    let defaults = doc(vec![entry("super+q", "close"), entry("super+j", "focus-next")], None);
    let user = doc(vec![entry("super+q", "quit"), entry("super+k", "focus-prev")], None);
    let cfg = Config::from_documents(defaults, Some(user), None, ascii_key)
        .ok()
        .unwrap();
    let pretty: Vec<(String, String)> =
        cfg.binds.iter().map(|b| (b.chord_text.clone(), b.action_text.clone())).collect();
    assert_eq!(
        pretty,
        vec![
            ("super+q".to_string(), "quit".to_string()),
            ("super+j".to_string(), "focus-next".to_string()),
            ("super+k".to_string(), "focus-prev".to_string()),
        ]
    );
    assert!(matches!(cfg.action_for(key(0x71)), Some(Action::Quit)));
    assert!(matches!(cfg.action_for(key(0x6a)), Some(Action::FocusNext)));
    assert!(cfg.action_for(key(0x20)).is_none());
}

#[test]
fn theme_only_user_config_keeps_default_binds() {
    let defaults = doc(vec![entry("super+q", "close")], None);
    let mut t = no_theme();
    t.margin = Some(0);
    let user = Document { binds: None, theme: Some(t) };
    let cfg = Config::from_documents(defaults, Some(user), None, ascii_key).ok().unwrap();
    assert_eq!(cfg.binds.len(), 1);
    assert_eq!(cfg.binds[0].action_text, "close");
    assert_eq!(cfg.theme.margin, 0);
}

#[test]
fn runtime_wallpaper_wins() {
    let mut t = no_theme();
    t.wallpaper = Some("/from-config.png".to_string());
    let user = Document { binds: None, theme: Some(t) };
    let cfg = Config::from_documents(
        Document { binds: None, theme: None },
        Some(user),
        Some("/picked.png".to_string()),
        ascii_key,
    )
    .ok()
    .unwrap();
    assert_eq!(cfg.theme.wallpaper, Some("/picked.png".to_string()));
}

#[test]
fn a_bad_bind_refuses_the_config() {
    let defaults = doc(vec![entry("super+q", "close")], None);
    let user = doc(vec![entry("super+w", "workspace ten")], None);
    match Config::from_documents(defaults, Some(user), None, ascii_key) {
        Err(ConfigError::Action(t, ActionError::BadWorkspaceNumber)) => {
            assert_eq!(t, "workspace ten")
        }
        _ => panic!("expected an action error"),
    }
}

#[test]
fn each_bind_line_names_the_key_to_look_up() {
    let entries = vec![
        BindEntry { chord: "super+Return".to_string(), action: "spawn foot".to_string() },
        BindEntry { chord: "hyper+q".to_string(), action: "close".to_string() },
        BindEntry { chord: " Super + Shift +  q ".to_string(), action: "quit".to_string() },
    ];
    let names = key_lookups(&entries);
    assert_eq!(names.len(), 3);
    assert_eq!(names[0].as_deref(), Some("Return"));
    assert_eq!(names[1], None);
    assert_eq!(names[2].as_deref(), Some("q"));
}

#[test]
fn each_line_is_looked_up_by_its_own_key_name() {
    let defaults = doc(vec![entry("super+J", "focus-next"), entry("ctrl+ Q ", "close")], None);
    let cfg = Config::from_documents(defaults, None, None, ascii_key).ok().unwrap();
    assert_eq!(cfg.binds[0].chord.key, 0x6a);
    assert_eq!(cfg.binds[1].chord.key, 0x71);
    assert!(cfg.binds[1].chord.ctrl);
}

#[test]
fn an_unknown_key_or_a_nul_in_its_name_refuses_the_config() {
    let defaults = doc(vec![entry("super+nosuchkey", "close")], None);
    match Config::from_documents(defaults, None, None, ascii_key) {
        Err(ConfigError::Chord(t, ChordError::UnknownKey(n))) => {
            assert_eq!(t, "super+nosuchkey");
            assert_eq!(n, "nosuchkey");
        }
        _ => panic!("expected an unknown key"),
    }
    let defaults = doc(vec![entry("super+q\0", "close")], None);
    assert!(matches!(
        Config::from_documents(defaults, None, None, ascii_key),
        Err(ConfigError::Chord(_, ChordError::UnknownKey(_)))
    ));
}

#[test]
fn a_nul_key_name_has_nothing_to_look_up() {
    let names = key_lookups(&vec![entry("super+q\0", "close")]);
    assert_eq!(names, vec![None]);
}
