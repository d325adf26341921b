//! Where a key event goes: the unlock screen's password entry, the
//! overview's Escape, a bound chord, or the focused client.
use vstd::prelude::*;

use crate::config::{Chord, Config, chord_pos, has_chord, unique_chords};
use crate::input::{Action, KeyState, Modifiers, KEY_ESCAPE, KEY_RETURN};

verus! {

/// X keysym of the keypad Enter key.
pub const KEY_KP_ENTER: u32 = 0xff8d;

/// X keysym of the BackSpace key.
pub const KEY_BACKSPACE: u32 = 0xff08;

/// A control character (Unicode general category Cc), as `char::is_control`
/// tells them.
pub open spec fn is_control(c: char) -> bool {
    let u = c as u32;
    u <= 0x1f || (0x7f <= u && u <= 0x9f)
}

pub fn is_control_char(c: char) -> (r: bool)
    ensures
        r == is_control(c),
{
    let u = c as u32;
    u <= 0x1f || (0x7f <= u && u <= 0x9f)
}

/// The password typed on the unlock screen so far.
pub struct LockEntry {
    pub typed: Vec<char>,
}

/// Where a key event went.
#[derive(Debug)]
pub enum KeyRoute {
    /// To the focused client.
    Forward,
    /// Kept from the client; run the action, if any.
    Intercept(Option<Action>),
    /// Kept from the client: check the typed password.
    Submit,
}

/// The chord a key makes with the modifiers held.
pub open spec fn chord_of(mods: Modifiers, key: u32) -> Chord {
    Chord { logo: mods.logo, ctrl: mods.ctrl, alt: mods.alt, shift: mods.shift, key }
}

/// The action bound to a key press (none for a release).
pub open spec fn bound(config: Config, state: KeyState, mods: Modifiers, key: u32) -> Option<Action> {
    if state is Pressed && has_chord(config.binds@, chord_of(mods, key)) {
        Some(config.binds@[chord_pos(config.binds@, chord_of(mods, key))].action)
    } else {
        None
    }
}

/// The action of the first of `syms` that is bound.
pub open spec fn first_bound(config: Config, state: KeyState, mods: Modifiers, syms: Seq<u32>) -> Option<Action>
    decreases syms.len(),
{
    if syms.len() == 0 {
        None
    } else {
        match bound(config, state, mods, syms[0]) {
            Some(a) => Some(a),
            None => first_bound(config, state, mods, syms.drop_first()),
        }
    }
}

/// An owned copy of an action.
pub fn copy_action(a: &Action) -> (r: Action)
    ensures
        r == *a,
{
    match a {
        Action::Spawn(s) => Action::Spawn(s.clone()),
        Action::Close => Action::Close,
        Action::Kill => Action::Kill,
        Action::FocusNext => Action::FocusNext,
        Action::FocusPrev => Action::FocusPrev,
        Action::FocusDir(d) => Action::FocusDir(*d),
        Action::MoveDir(d) => Action::MoveDir(*d),
        Action::ResizeDir(d) => Action::ResizeDir(*d),
        Action::SetNextSplit(d) => Action::SetNextSplit(*d),
        Action::Workspace(n) => Action::Workspace(*n),
        Action::MoveToWorkspace(n) => Action::MoveToWorkspace(*n),
        Action::MoveToWorkspaceFollow(n) => Action::MoveToWorkspaceFollow(*n),
        Action::WorkspaceNext => Action::WorkspaceNext,
        Action::WorkspacePrev => Action::WorkspacePrev,
        Action::WorkspaceLast => Action::WorkspaceLast,
        Action::ReloadConfig => Action::ReloadConfig,
        Action::CenterFloating => Action::CenterFloating,
        Action::CycleLayout => Action::CycleLayout,
        Action::ToggleFloating => Action::ToggleFloating,
        Action::ToggleFullscreen => Action::ToggleFullscreen,
        Action::ToggleOverview => Action::ToggleOverview,
        Action::ToggleBlur => Action::ToggleBlur,
        Action::CycleOpacity => Action::CycleOpacity,
        Action::Lock => Action::Lock,
        Action::Quit => Action::Quit,
    }
}

/// The action bound to a key press, if any.
pub fn bound_action(config: &Config, state: KeyState, mods: &Modifiers, key: u32) -> (r: Option<Action>)
    requires
        unique_chords(config.binds@),
    ensures
        r == bound(*config, state, *mods, key),
{
    match state {
        KeyState::Released => None,
        KeyState::Pressed => {
            let chord = Chord { logo: mods.logo, ctrl: mods.ctrl, alt: mods.alt, shift: mods.shift, key };
            match config.action_for(chord) {
                Some(a) => Some(copy_action(a)),
                None => None,
            }
        },
    }
}

/// The action of the first bound key among `syms`.
pub fn first_bound_action(config: &Config, state: KeyState, mods: &Modifiers, syms: &Vec<u32>) -> (r: Option<Action>)
    requires
        unique_chords(config.binds@),
    ensures
        r == first_bound(*config, state, *mods, syms@),
{
    let mut i: usize = 0;
    proof {
        assert(syms@.skip(0) =~= syms@);
    }
    while i < syms.len()
        invariant
            i <= syms@.len(),
            unique_chords(config.binds@),
            first_bound(*config, state, *mods, syms@) == first_bound(*config, state, *mods, syms@.skip(i as int)),
        decreases syms.len() - i,
    {
        proof {
            assert(syms@.skip(i as int)[0] == syms@[i as int]);
            assert(syms@.skip(i as int).drop_first() =~= syms@.skip(i + 1));
        }
        match bound_action(config, state, mods, syms[i]) {
            Some(a) => {
                return Some(a);
            },
            None => {},
        }
        i += 1;
    }
    proof {
        assert(syms@.skip(i as int).len() == 0);
    }
    None
}

/// What the unlock screen makes of a key: Enter (either) submits, Escape
/// clears, BackSpace drops the last character, and any other key that types
/// a non-control character adds it. Releases change nothing.
pub open spec fn lock_key(typed: Seq<char>, state: KeyState, sym: u32, key_char: Option<char>) -> (Seq<char>, bool) {
    if state is Released {
        (typed, false)
    } else if sym == KEY_RETURN || sym == KEY_KP_ENTER {
        (typed, true)
    } else if sym == KEY_ESCAPE {
        (Seq::empty(), false)
    } else if sym == KEY_BACKSPACE {
        (if typed.len() > 0 {
            typed.drop_last()
        } else {
            typed
        }, false)
    } else {
        match key_char {
            Some(c) => if !is_control(c) {
                (typed.push(c), false)
            } else {
                (typed, false)
            },
            None => (typed, false),
        }
    }
}

/// Route a key event. While the unlock screen is up every key goes to the
/// password entry and nothing reaches clients or binds; in the overview a
/// pressed Escape closes it; otherwise a bound chord is run (the
/// modifier-translated symbol first, then the raw ones, so that
/// super+shift+1 still matches `1`), and anything else goes to the client.
pub fn route_key(
    config: &Config,
    lock: &mut LockEntry,
    locked: bool,
    overview: bool,
    state: KeyState,
    sym: u32,
    raw_syms: &Vec<u32>,
    key_char: Option<char>,
    mods: &Modifiers,
) -> (r: KeyRoute)
    requires
        unique_chords(config.binds@),
    ensures
        locked ==> {
            let (typed, submit) = lock_key(old(lock).typed@, state, sym, key_char);
            &&& final(lock).typed@ == typed
            &&& r == if submit {
                KeyRoute::Submit
            } else {
                KeyRoute::Intercept(None)
            }
        },
        !locked ==> final(lock).typed@ == old(lock).typed@,
        !locked && overview && state is Pressed && sym == KEY_ESCAPE ==> r == KeyRoute::Intercept(
            Some(Action::ToggleOverview),
        ),
        !locked && !(overview && state is Pressed && sym == KEY_ESCAPE) ==> r == match bound(
            *config,
            state,
            *mods,
            sym,
        ) {
            Some(a) => KeyRoute::Intercept(Some(a)),
            None => match first_bound(*config, state, *mods, raw_syms@) {
                Some(a) => KeyRoute::Intercept(Some(a)),
                None => KeyRoute::Forward,
            },
        },
{
    if locked {
        let pressed = match state {
            KeyState::Pressed => true,
            KeyState::Released => false,
        };
        if !pressed {
            return KeyRoute::Intercept(None);
        }
        if sym == KEY_RETURN || sym == KEY_KP_ENTER {
            return KeyRoute::Submit;
        }
        if sym == KEY_ESCAPE {
            lock.typed = Vec::new();
        } else if sym == KEY_BACKSPACE {
            lock.typed.pop();
        } else if let Some(c) = key_char {
            if !is_control_char(c) {
                lock.typed.push(c);
            }
        }
        return KeyRoute::Intercept(None);
    }
    let esc = match state {
        KeyState::Pressed => overview && sym == KEY_ESCAPE,
        KeyState::Released => false,
    };
    if esc {
        return KeyRoute::Intercept(Some(Action::ToggleOverview));
    }
    match bound_action(config, state, mods, sym) {
        Some(a) => KeyRoute::Intercept(Some(a)),
        None => match first_bound_action(config, state, mods, raw_syms) {
            Some(a) => KeyRoute::Intercept(Some(a)),
            None => KeyRoute::Forward,
        },
    }
}

} // verus!
