use vendiwm::input::{
    gesture_swipe, handle, touch_lift, touch_tick, Action, Dir, KeyState, Modifiers, TouchLift, TouchPhase, KEY_ESCAPE,
    KEY_H, KEY_J, KEY_K, KEY_Q, KEY_RETURN, KEY_V,
};
use vendiwm::layout::Direction;
use vendiwm::text::Raster;

fn mods(logo: bool, shift: bool) -> Modifiers {
    Modifiers { logo, ctrl: false, alt: false, shift }
}

#[test]
fn super_shortcuts() {
    let m = mods(true, false);
    match handle(KEY_RETURN, KeyState::Pressed, &m) {
        Some(Action::Spawn(c)) => assert_eq!(c, "alacritty"),
        _ => panic!("expected spawn"),
    }
    assert!(matches!(handle(KEY_Q, KeyState::Pressed, &m), Some(Action::Close)));
    assert!(matches!(handle(KEY_J, KeyState::Pressed, &m), Some(Action::FocusNext)));
    assert!(matches!(handle(KEY_K, KeyState::Pressed, &m), Some(Action::FocusPrev)));
    assert!(matches!(
        handle(KEY_H, KeyState::Pressed, &m),
        Some(Action::SetNextSplit(Direction::Horizontal))
    ));
    assert!(matches!(
        handle(KEY_V, KeyState::Pressed, &m),
        Some(Action::SetNextSplit(Direction::Vertical))
    ));
}

#[test]
fn quit_needs_shift() {
    assert!(handle(KEY_ESCAPE, KeyState::Pressed, &mods(true, false)).is_none());
    assert!(matches!(handle(KEY_ESCAPE, KeyState::Pressed, &mods(true, true)), Some(Action::Quit)));
}

#[test]
fn releases_and_plain_keys_pass_through() {
    assert!(handle(KEY_Q, KeyState::Released, &mods(true, false)).is_none());
    assert!(handle(KEY_Q, KeyState::Pressed, &mods(false, false)).is_none());
    assert!(handle(0x0078, KeyState::Pressed, &mods(true, false)).is_none());
}

#[test]
fn keysym_values() {
    assert_eq!(KEY_RETURN, 0xff0d);
    assert_eq!(KEY_ESCAPE, 0xff1b);
    assert_eq!((KEY_Q, KEY_J, KEY_K, KEY_H, KEY_V), (0x71, 0x6a, 0x6b, 0x68, 0x76));
}

#[test]
fn dir_axes() {
    assert_eq!(Dir::Left.axis(), Direction::Horizontal);
    assert_eq!(Dir::Right.axis(), Direction::Horizontal);
    assert_eq!(Dir::Up.axis(), Direction::Vertical);
    assert_eq!(Dir::Down.axis(), Direction::Vertical);
}

#[test]
fn raster_pixels() {
    let r = Raster { data: (0u8..24).collect(), w: 3, h: 2 };
    assert_eq!(r.pixel(0, 0), [0, 1, 2, 3]);
    assert_eq!(r.pixel(2, 0), [8, 9, 10, 11]);
    assert_eq!(r.pixel(1, 1), [16, 17, 18, 19]);
}

#[test]
fn touch_lift_and_long_press() {
    assert_eq!(touch_lift(TouchPhase::Pending), TouchLift::Click);
    assert_eq!(touch_lift(TouchPhase::Dragging), TouchLift::Release);
    assert_eq!(touch_lift(TouchPhase::WindowMove), TouchLift::EndMove);
    assert_eq!(touch_lift(TouchPhase::Consumed), TouchLift::Nothing);
    assert_eq!(touch_tick(TouchPhase::Pending, false, 449), (TouchPhase::Pending, false));
    assert_eq!(touch_tick(TouchPhase::Pending, false, 450), (TouchPhase::Consumed, true));
    assert_eq!(touch_tick(TouchPhase::Pending, true, 5000), (TouchPhase::Pending, false));
    assert_eq!(touch_tick(TouchPhase::Dragging, false, 5000), (TouchPhase::Dragging, false));
}

#[test]
fn three_finger_swipes_switch_desks() {
    assert_eq!(gesture_swipe(3, false, true, true), Some(true));
    assert_eq!(gesture_swipe(4, false, true, false), Some(false));
    assert_eq!(gesture_swipe(2, false, true, true), None);
    assert_eq!(gesture_swipe(3, true, true, true), None);
    assert_eq!(gesture_swipe(3, false, false, true), None);
}
