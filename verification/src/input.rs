//! Keybinding actions and the built-in shortcut table.
//!
//! A key press is turned into an `Action` when it is a vendiwm shortcut (the
//! client must not see it); anything else goes to the focused client.
use vstd::prelude::*;

use crate::layout::Direction;

verus! {

/// X keysym of the Return key.
pub const KEY_RETURN: u32 = 0xff0d;

/// X keysym of the Escape key.
pub const KEY_ESCAPE: u32 = 0xff1b;

/// X keysym of the `h` key.
pub const KEY_H: u32 = 0x0068;

/// X keysym of the `j` key.
pub const KEY_J: u32 = 0x006a;

/// X keysym of the `k` key.
pub const KEY_K: u32 = 0x006b;

/// X keysym of the `q` key.
pub const KEY_Q: u32 = 0x0071;

/// X keysym of the `v` key.
pub const KEY_V: u32 = 0x0076;

/// A screen direction for focus, move and resize bindings.
#[derive(Debug, Clone, Copy, PartialEq, Eq, Structural)]
pub enum Dir {
    Left,
    Right,
    Up,
    Down,
}

impl Dir {
    /// The split axis a move along this direction crosses: left/right runs
    /// across side-by-side children, up/down across stacked ones.
    pub open spec fn axis_spec(self) -> Direction {
        match self {
            Dir::Left | Dir::Right => Direction::Horizontal,
            Dir::Up | Dir::Down => Direction::Vertical,
        }
    }

    pub fn axis(self) -> (r: Direction)
        ensures
            r == self.axis_spec(),
    {
        match self {
            Dir::Left | Dir::Right => Direction::Horizontal,
            Dir::Up | Dir::Down => Direction::Vertical,
        }
    }

    /// Whether moving this way increases the coordinate (right, down).
    pub open spec fn grows(self) -> bool {
        self is Right || self is Down
    }
}

/// What a binding asks the compositor to do.
#[derive(Debug, Clone)]
pub enum Action {
    /// Spawn a child process from a command string.
    Spawn(String),
    /// Close the focused window.
    Close,
    /// Kill the focused window's client outright.
    Kill,
    /// Cycle focus to the next leaf in the layout tree.
    FocusNext,
    /// Cycle focus to the previous leaf.
    FocusPrev,
    /// Focus the nearest window in a screen direction.
    FocusDir(Dir),
    /// Swap the focused tile with its neighbour in a screen direction.
    MoveDir(Dir),
    /// Grow or shrink the focused window toward a screen direction.
    ResizeDir(Dir),
    /// Set the direction for the NEXT window insert (consumed on use).
    SetNextSplit(Direction),
    /// Switch to a workspace (created on demand).
    Workspace(u32),
    /// Send the focused window to a workspace.
    MoveToWorkspace(u32),
    /// Send the focused window to a workspace and follow it there.
    MoveToWorkspaceFollow(u32),
    /// Switch to the next existing workspace.
    WorkspaceNext,
    /// Switch to the previous existing workspace.
    WorkspacePrev,
    /// Switch back to the workspace that was active before.
    WorkspaceLast,
    /// Re-read the config file.
    ReloadConfig,
    /// Center the focused floating window.
    CenterFloating,
    /// Cycle the active workspace's layout mode.
    CycleLayout,
    /// Move the focused window between the tiling tree and the floating layer.
    ToggleFloating,
    /// Toggle fullscreen for the focused window.
    ToggleFullscreen,
    /// Open or close the overview.
    ToggleOverview,
    /// Toggle the blur behind overlay surfaces.
    ToggleBlur,
    /// Cycle the focused window's opacity.
    CycleOpacity,
    /// Lock the session.
    Lock,
    /// Quit the compositor.
    Quit,
}

/// Whether a key went down or came up.
#[derive(Debug, Clone, Copy, PartialEq, Eq, Structural)]
pub enum KeyState {
    Released,
    Pressed,
}

/// The modifier keys held while a key event happens.
#[derive(Debug, Clone, Copy, PartialEq, Eq, Structural)]
pub struct Modifiers {
    pub logo: bool,
    pub ctrl: bool,
    pub alt: bool,
    pub shift: bool,
}

/// The keys of the built-in table (Escape only counts with Shift).
pub open spec fn is_builtin_key(keysym: u32) -> bool {
    keysym == KEY_RETURN || keysym == KEY_Q || keysym == KEY_J || keysym == KEY_K || keysym == KEY_H
        || keysym == KEY_V || keysym == KEY_ESCAPE
}

/// Resolve a key event to an action. Only presses with Super held are
/// intercepted; None for every other event and for unbound keys.
pub fn handle(keysym: u32, state: KeyState, mods: &Modifiers) -> (r: Option<Action>)
    ensures
        (state is Released || !mods.logo || !is_builtin_key(keysym)) ==> r is None,
        state is Pressed && mods.logo ==> {
            &&& keysym == KEY_RETURN ==> (r matches Some(Action::Spawn(c)) && c@ == "alacritty"@)
            &&& keysym == KEY_Q ==> r == Some(Action::Close)
            &&& keysym == KEY_J ==> r == Some(Action::FocusNext)
            &&& keysym == KEY_K ==> r == Some(Action::FocusPrev)
            &&& keysym == KEY_H ==> r == Some(Action::SetNextSplit(Direction::Horizontal))
            &&& keysym == KEY_V ==> r == Some(Action::SetNextSplit(Direction::Vertical))
            &&& keysym == KEY_ESCAPE ==> r == if mods.shift {
                Some(Action::Quit)
            } else {
                None
            }
        },
{
    match state {
        KeyState::Released => {
            return None;
        },
        KeyState::Pressed => {},
    }
    if !mods.logo {
        return None;
    }
    if keysym == KEY_RETURN {
        Some(Action::Spawn("alacritty".to_owned()))
    } else if keysym == KEY_Q {
        Some(Action::Close)
    } else if keysym == KEY_J {
        Some(Action::FocusNext)
    } else if keysym == KEY_K {
        Some(Action::FocusPrev)
    } else if keysym == KEY_H {
        Some(Action::SetNextSplit(Direction::Horizontal))
    } else if keysym == KEY_V {
        Some(Action::SetNextSplit(Direction::Vertical))
    } else if keysym == KEY_ESCAPE && mods.shift {
        Some(Action::Quit)
    } else {
        None
    }
}

/// Where a touch sequence is in turning into a tap, drag or gesture.
#[derive(Debug, Clone, Copy, PartialEq, Eq, Structural)]
pub enum TouchPhase {
    /// Finger down, not yet moved far or held long: could become tap, drag
    /// or long-press. No button has been sent to the client yet.
    Pending,
    /// Moved past the threshold: the left button is held and we are dragging.
    Dragging,
    /// Super was held at touch-down: driving a window-move grab.
    WindowMove,
    /// A gesture already resolved (long-press fired); swallow until lift.
    Consumed,
}

/// How long a still finger must stay down to make a right click, in ms.
pub const LONG_PRESS_MS: u64 = 450;

/// What lifting the finger of a single-finger touch does.
#[derive(Debug, Clone, Copy, PartialEq, Eq, Structural)]
pub enum TouchLift {
    /// A tap: a full left click where the finger was.
    Click,
    /// The end of a drag: release the left button.
    Release,
    /// The end of a window move: drop the window.
    EndMove,
    /// Nothing (the touch was already used up).
    Nothing,
}

/// What lifting the finger does in `phase`.
pub fn touch_lift(phase: TouchPhase) -> (r: TouchLift)
    ensures
        r == match phase {
            TouchPhase::Pending => TouchLift::Click,
            TouchPhase::Dragging => TouchLift::Release,
            TouchPhase::WindowMove => TouchLift::EndMove,
            TouchPhase::Consumed => TouchLift::Nothing,
        },
{
    match phase {
        TouchPhase::Pending => TouchLift::Click,
        TouchPhase::Dragging => TouchLift::Release,
        TouchPhase::WindowMove => TouchLift::EndMove,
        TouchPhase::Consumed => TouchLift::Nothing,
    }
}

/// A long press: a pending touch that did not start at the top edge (those
/// are control-center pulls) and has been held `held_ms` ms, at least
/// `LONG_PRESS_MS`, becomes a right click and is used up. Returns the new
/// phase and whether to right-click.
pub fn touch_tick(phase: TouchPhase, from_edge: bool, held_ms: u64) -> (r: (TouchPhase, bool))
    ensures
        r == if phase == TouchPhase::Pending && !from_edge && held_ms >= LONG_PRESS_MS {
            (TouchPhase::Consumed, true)
        } else {
            (phase, false)
        },
{
    if phase == TouchPhase::Pending && !from_edge && held_ms >= LONG_PRESS_MS {
        (TouchPhase::Consumed, true)
    } else {
        (phase, false)
    }
}

/// How a multi-finger touch gesture resolves as its fingers lift: a swipe
/// of three or more fingers that has not fired yet and went mostly sideways
/// far enough switches desk, forward (the next desk) when it went left.
/// `Some(forward)` when it switches.
pub fn gesture_swipe(fingers: usize, fired: bool, sideways: bool, leftward: bool) -> (r: Option<bool>)
    ensures
        r == if !fired && fingers >= 3 && sideways {
            Some(leftward)
        } else {
            None
        },
{
    if !fired && fingers >= 3 && sideways {
        Some(leftward)
    } else {
        None
    }
}

} // verus!
