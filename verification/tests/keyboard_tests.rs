use vendiwm::config::{BindEntry, BindsBlock, Config, Document};
use vendiwm::input::{Action, KeyState, Modifiers, KEY_ESCAPE, KEY_RETURN};
use vendiwm::keyboard::{copy_action, route_key, KeyRoute, LockEntry, KEY_BACKSPACE, KEY_KP_ENTER};

fn config() -> Config {
    let doc = Document {
        binds: Some(BindsBlock {
            entries: vec![
                BindEntry { chord: "super+q".to_string(), action: "close".to_string() },
                BindEntry { chord: "super+shift+1".to_string(), action: "move-to-workspace 1".to_string() },
            ],
        }),
        theme: None,
    };
    // stands in for xkb: q and 1
    let keysym = |name: String| match name.as_str() {
        "q" => 0x71,
        "1" => 0x31,
        _ => 0,
    };
    Config::from_documents(doc, None, None, keysym).ok().unwrap()
}

fn mods(logo: bool, shift: bool) -> Modifiers {
    Modifiers { logo, ctrl: false, alt: false, shift }
}

#[test]
fn bound_chords_are_kept_from_the_client() {
    let cfg = config();
    let mut lock = LockEntry { typed: vec![] };
    let r = route_key(&cfg, &mut lock, false, false, KeyState::Pressed, 0x71, &vec![0x71], None, &mods(true, false));
    assert!(matches!(r, KeyRoute::Intercept(Some(Action::Close))));
    // releases and unbound keys go to the client
    let r = route_key(&cfg, &mut lock, false, false, KeyState::Released, 0x71, &vec![0x71], None, &mods(true, false));
    assert!(matches!(r, KeyRoute::Forward));
    let r = route_key(&cfg, &mut lock, false, false, KeyState::Pressed, 0x71, &vec![0x71], None, &mods(false, false));
    assert!(matches!(r, KeyRoute::Forward));
}

#[test]
fn raw_symbols_are_tried_after_the_translated_one() {
    let cfg = config();
    let mut lock = LockEntry { typed: vec![] };
    // shift turns `1` into `exclam` (0x21); the raw `1` still matches
    let r = route_key(&cfg, &mut lock, false, false, KeyState::Pressed, 0x21, &vec![0x31], None, &mods(true, true));
    assert!(matches!(r, KeyRoute::Intercept(Some(Action::MoveToWorkspace(1)))));
}

#[test]
fn escape_leaves_the_overview() {
    let cfg = config();
    let mut lock = LockEntry { typed: vec![] };
    let r = route_key(&cfg, &mut lock, false, true, KeyState::Pressed, KEY_ESCAPE, &vec![], None, &mods(false, false));
    assert!(matches!(r, KeyRoute::Intercept(Some(Action::ToggleOverview))));
    let r = route_key(&cfg, &mut lock, false, false, KeyState::Pressed, KEY_ESCAPE, &vec![], None, &mods(false, false));
    assert!(matches!(r, KeyRoute::Forward));
}

#[test]
fn the_unlock_screen_takes_every_key() {
    let cfg = config();
    let mut lock = LockEntry { typed: vec![] };
    let m = mods(true, false);
    for c in ['p', 'w'] {
        let r = route_key(&cfg, &mut lock, true, false, KeyState::Pressed, c as u32, &vec![], Some(c), &m);
        assert!(matches!(r, KeyRoute::Intercept(None)));
    }
    // a bound chord does nothing while locked
    let r = route_key(&cfg, &mut lock, true, false, KeyState::Pressed, 0x71, &vec![0x71], Some('q'), &m);
    assert!(matches!(r, KeyRoute::Intercept(None)));
    assert_eq!(lock.typed, vec!['p', 'w', 'q']);
    // control characters are not typed
    route_key(&cfg, &mut lock, true, false, KeyState::Pressed, 0xff09, &vec![], Some('\t'), &m);
    assert_eq!(lock.typed, vec!['p', 'w', 'q']);
    route_key(&cfg, &mut lock, true, false, KeyState::Pressed, KEY_BACKSPACE, &vec![], None, &m);
    assert_eq!(lock.typed, vec!['p', 'w']);
    let r = route_key(&cfg, &mut lock, true, false, KeyState::Pressed, KEY_RETURN, &vec![], None, &m);
    assert!(matches!(r, KeyRoute::Submit));
    let r = route_key(&cfg, &mut lock, true, false, KeyState::Pressed, KEY_KP_ENTER, &vec![], None, &m);
    assert!(matches!(r, KeyRoute::Submit));
    route_key(&cfg, &mut lock, true, false, KeyState::Pressed, KEY_ESCAPE, &vec![], None, &m);
    assert!(lock.typed.is_empty());
    route_key(&cfg, &mut lock, true, false, KeyState::Pressed, KEY_BACKSPACE, &vec![], None, &m);
    assert!(lock.typed.is_empty());
}

#[test]
fn copying_an_action_keeps_it() {
    assert!(matches!(copy_action(&Action::Spawn("foot".to_string())), Action::Spawn(s) if s == "foot"));
    assert!(matches!(copy_action(&Action::Workspace(4)), Action::Workspace(4)));
}
