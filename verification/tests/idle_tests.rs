use vendiwm::idle::{IdleConfig, IdleInputs, IdleState};

fn cfg() -> IdleConfig {
    IdleConfig { lock_secs: 300, screensaver_secs: 120, screen_off_secs: 600 }
}

fn quiet(secs: u64) -> IdleInputs {
    IdleInputs { idle_secs: secs, inhibited: false, locked: false, screensaver_running: false }
}

#[test]
fn steps_fire_in_turn_and_once() {
    let s = IdleState::new();
    let (s, a) = s.tick(cfg(), quiet(60));
    assert!(!a.lock && !a.start_screensaver && !a.screen_off && !a.reset_clock);
    let (s, a) = s.tick(cfg(), quiet(125));
    assert!(a.start_screensaver && !a.lock && !a.screen_off);
    let (s, a) = s.tick(cfg(), IdleInputs { screensaver_running: true, ..quiet(130) });
    assert!(!a.start_screensaver);
    let (s, a) = s.tick(cfg(), quiet(305));
    assert!(a.lock && !a.start_screensaver);
    let (s, a) = s.tick(cfg(), IdleInputs { locked: true, ..quiet(310) });
    assert!(!a.lock);
    let (s, a) = s.tick(cfg(), quiet(600));
    assert!(a.screen_off && !a.lock);
    assert!(s.screen_off);
    let (_, a) = s.tick(cfg(), quiet(900));
    assert!(!a.screen_off && !a.lock && !a.start_screensaver);
}

#[test]
fn an_inhibitor_only_restarts_the_clock() {
    let s = IdleState::new();
    let (s2, a) = s.tick(cfg(), IdleInputs { inhibited: true, ..quiet(10_000) });
    assert!(a.reset_clock && !a.lock && !a.start_screensaver && !a.screen_off);
    assert!(s2 == s);
}

#[test]
fn zero_disables_a_step() {
    let off = IdleConfig { lock_secs: 0, screensaver_secs: 0, screen_off_secs: 0 };
    let (_, a) = IdleState::new().tick(off, quiet(u64::MAX));
    assert!(!a.lock && !a.start_screensaver && !a.screen_off);
}

#[test]
fn input_rearms_and_wakes() {
    let (mut s, _) = IdleState::new().tick(cfg(), quiet(700));
    assert!(s.lock_fired && s.screen_off);
    assert!(s.input());
    assert!(!s.lock_fired && !s.screensaver_fired && !s.screen_off);
    assert!(!s.input());
    let (_, a) = s.tick(cfg(), quiet(300));
    assert!(a.lock);
}
