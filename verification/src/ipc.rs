//! The IPC protocol model: requests, events and the snapshots answered to
//! clients, newline framing of the byte stream, and which events reach which
//! subscriber.
//!
//! The socket itself and JSON encoding live outside the library.
use vstd::prelude::*;

use crate::config::Bind;
use crate::layout::Direction;
use crate::text::{chars_of, chars_are, str_eq};
use crate::workspaces::{Workspaces, entry_ids, find_spec};

verus! {

/// One client request (the JSON `cmd` names the variant, kebab-case).
#[derive(Debug)]
pub enum Request {
    /// Launch a process; the argv is joined with spaces and run by `sh -c`.
    Spawn { args: Vec<String> },
    /// Focus a window by id.
    Focus { window: u32 },
    /// Close a window; without `window`, the focused one.
    Close { window: Option<u32> },
    /// Snapshot of all windows.
    ListWindows,
    /// Snapshot of all workspaces.
    ListWorkspaces,
    /// All active keybinds (defaults merged with user overrides).
    ListBinds,
    /// Snapshot of all connected monitors.
    ListOutputs,
    /// Switch to a workspace (created on demand).
    Workspace { id: u32 },
    /// Set the direction of the next split.
    Split { dir: SplitDir },
    /// Move the focused window to a workspace.
    Move { window: u32, to_workspace: u32 },
    /// Subscribe to event push; the connection stays open after this.
    Subscribe { events: Vec<EventKind> },
    /// Capture the next composed frame to a PNG.
    Screenshot { path: Option<String> },
    /// Lock the session.
    Lock,
    /// Switch the wallpaper at runtime ("default" or "" clears it).
    Wallpaper { path: String },
    /// Re-read the config file and apply theme and binds live.
    ReloadConfig,
}

/// Split direction as clients name it.
#[derive(Debug, Clone, Copy, PartialEq, Eq, Structural)]
pub enum SplitDir {
    Horizontal,
    Vertical,
}

impl From<SplitDir> for Direction {
    fn from(d: SplitDir) -> (r: Direction) {
        match d {
            SplitDir::Horizontal => Direction::Horizontal,
            SplitDir::Vertical => Direction::Vertical,
        }
    }
}

impl vstd::std_specs::convert::FromSpecImpl<SplitDir> for Direction {
    open spec fn obeys_from_spec() -> bool {
        true
    }

    open spec fn from_spec(d: SplitDir) -> Direction {
        match d {
            SplitDir::Horizontal => Direction::Horizontal,
            SplitDir::Vertical => Direction::Vertical,
        }
    }
}

/// The event families a client can subscribe to.
#[derive(Debug, Clone, Copy, PartialEq, Eq, Structural)]
pub enum EventKind {
    Window,
    Workspace,
    Overview,
}

/// One keybind as listed to clients.
#[derive(Debug)]
pub struct BindInfo {
    pub chord: String,
    pub action: String,
}

/// One window as listed to clients.
#[derive(Debug)]
pub struct WindowInfo {
    pub id: u32,
    pub title: String,
    pub focused: bool,
    pub workspace: u32,
    pub floating: bool,
}

/// One workspace as listed to clients.
#[derive(Debug, Clone)]
pub struct WorkspaceInfo {
    pub id: u32,
    pub focused: bool,
    /// Number of windows living on this workspace.
    pub windows: usize,
}

/// Pushed to subscribers.
#[derive(Debug)]
pub enum Event {
    WindowOpened { id: u32, title: String },
    WindowClosed { id: u32 },
    /// id 0 = nothing focused.
    WindowFocused { id: u32, title: String },
    WindowTitle { id: u32, title: String, focused: bool },
    WorkspacesChanged { active: u32, workspaces: Vec<WorkspaceInfo> },
    /// Overview (exposé) opened or closed.
    Overview { active: bool },
}

pub open spec fn kind_spec(ev: Event) -> EventKind {
    match ev {
        Event::WindowOpened { .. } | Event::WindowClosed { .. } | Event::WindowFocused { .. }
        | Event::WindowTitle { .. } => EventKind::Window,
        Event::WorkspacesChanged { .. } => EventKind::Workspace,
        Event::Overview { .. } => EventKind::Overview,
    }
}

/// The family an event belongs to.
pub fn event_kind(ev: &Event) -> (r: EventKind)
    ensures
        r == kind_spec(*ev),
{
    match ev {
        Event::WindowOpened { .. } | Event::WindowClosed { .. } | Event::WindowFocused { .. }
        | Event::WindowTitle { .. } => EventKind::Window,
        Event::WorkspacesChanged { .. } => EventKind::Workspace,
        Event::Overview { .. } => EventKind::Overview,
    }
}

/// Positions of the events (in order) that a client subscribed to `subs`
/// is sent.
pub open spec fn delivered(subs: Seq<EventKind>, events: Seq<Event>) -> Seq<int>
    decreases events.len(),
{
    if events.len() == 0 {
        Seq::empty()
    } else {
        let d = delivered(subs, events.drop_last());
        if subs.contains(kind_spec(events.last())) {
            d.push(events.len() - 1)
        } else {
            d
        }
    }
}

/// Which of `events` go to a client subscribed to `subs`, by position.
pub fn events_for(subs: &Vec<EventKind>, events: &Vec<Event>) -> (r: Vec<usize>)
    ensures
        r@.map_values(|i: usize| i as int) == delivered(subs@, events@),
{
    let mut out: Vec<usize> = Vec::new();
    let mut i: usize = 0;
    while i < events.len()
        invariant
            i <= events@.len(),
            out@.map_values(|k: usize| k as int) == delivered(subs@, events@.take(i as int)),
        decreases events.len() - i,
    {
        let kind = event_kind(&events[i]);
        let mut wanted = false;
        let mut j: usize = 0;
        while j < subs.len()
            invariant
                j <= subs@.len(),
                wanted <==> exists|k: int| 0 <= k < j && subs@[k] == kind,
            decreases subs.len() - j,
        {
            if subs[j] == kind {
                wanted = true;
            }
            j += 1;
        }
        proof {
            let t = events@.take(i + 1);
            assert(t.drop_last() =~= events@.take(i as int));
            assert(t.last() == events@[i as int]);
            if wanted {
                let k = choose|k: int| 0 <= k < j && subs@[k] == kind;
                assert(subs@.contains(kind));
            }
        }
        if wanted {
            out.push(i);
            proof {
                assert(out@.map_values(|k: usize| k as int) =~= delivered(subs@, events@.take(i as int)).push(
                    i as int,
                ));
            }
        }
        i += 1;
    }
    proof {
        assert(events@.take(events@.len() as int) =~= events@);
    }
    out
}

/// Message bytes joined back with a newline after each.
pub open spec fn framed(lines: Seq<Seq<u8>>) -> Seq<u8>
    decreases lines.len(),
{
    if lines.len() == 0 {
        Seq::empty()
    } else {
        framed(lines.drop_last()) + lines.last().push(10u8)
    }
}

/// Cut the complete newline-terminated messages off the front of `buf`
/// (without their newlines); what is left is the unfinished tail.
pub fn take_lines(buf: &mut Vec<u8>) -> (r: Vec<Vec<u8>>)
    ensures
        framed(r@.map_values(|l: Vec<u8>| l@)) + final(buf)@ == old(buf)@,
        !final(buf)@.contains(10u8),
        forall|i: int| 0 <= i < r@.len() ==> !(#[trigger] r@[i])@.contains(10u8),
{
    let mut lines: Vec<Vec<u8>> = Vec::new();
    let mut cur: Vec<u8> = Vec::new();
    let mut i: usize = 0;
    let mut start: usize = 0;
    proof {
        assert(old(buf)@.subrange(0, 0) =~= Seq::<u8>::empty());
    }
    while i < buf.len()
        invariant
            buf@ == old(buf)@,
            start <= i <= buf@.len(),
            cur@ == buf@.subrange(start as int, i as int),
            !cur@.contains(10u8),
            framed(lines@.map_values(|l: Vec<u8>| l@)) == buf@.subrange(0, start as int),
            forall|k: int| 0 <= k < lines@.len() ==> !(#[trigger] lines@[k])@.contains(10u8),
        decreases buf.len() - i,
    {
        let b = buf[i];
        if b == 10u8 {
            let line = cur;
            cur = Vec::new();
            proof {
                let before = lines@.map_values(|l: Vec<u8>| l@);
                let after = lines@.push(line).map_values(|l: Vec<u8>| l@);
                assert(after =~= before.push(line@));
                assert(after.drop_last() =~= before);
                assert(framed(after) == framed(before) + line@.push(10u8));
                assert(buf@.subrange(0, i + 1) =~= buf@.subrange(0, start as int) + buf@.subrange(
                    start as int,
                    i as int,
                ).push(10u8));
                assert(buf@.subrange(i + 1, i + 1) =~= Seq::<u8>::empty());
            }
            lines.push(line);
            start = i + 1;
        } else {
            cur.push(b);
            proof {
                assert(buf@.subrange(start as int, i + 1) =~= buf@.subrange(start as int, i as int).push(b));
            }
        }
        i += 1;
    }
    let ghost total = buf@;
    *buf = cur;
    proof {
        assert(framed(lines@.map_values(|l: Vec<u8>| l@)) + buf@ =~= total);
    }
    lines
}

/// The workspace list as answered to `list-workspaces`: each desk of a
/// snapshot, marked focused when it is the active one.
pub fn workspace_infos(active: u32, list: &Vec<(u32, usize, String, bool)>) -> (r: Vec<WorkspaceInfo>)
    ensures
        r@.len() == list@.len(),
        forall|i: int|
            0 <= i < r@.len() ==> {
                &&& (#[trigger] r@[i]).id == list@[i].0
                &&& r@[i].focused == (list@[i].0 == active)
                &&& r@[i].windows == list@[i].1
            },
{
    let mut out: Vec<WorkspaceInfo> = Vec::new();
    let mut i: usize = 0;
    while i < list.len()
        invariant
            i <= list@.len(),
            out@.len() == i,
            forall|k: int|
                0 <= k < i ==> {
                    &&& (#[trigger] out@[k]).id == list@[k].0
                    &&& out@[k].focused == (list@[k].0 == active)
                    &&& out@[k].windows == list@[k].1
                },
        decreases list.len() - i,
    {
        let id = list[i].0;
        out.push(WorkspaceInfo { id, focused: id == active, windows: list[i].1 });
        i += 1;
    }
    out
}

/// The bind list as answered to `list-binds`, in config order.
pub fn bind_infos(binds: &Vec<Bind>) -> (r: Vec<BindInfo>)
    ensures
        r@.len() == binds@.len(),
        forall|i: int|
            0 <= i < r@.len() ==> {
                &&& (#[trigger] r@[i]).chord@ == binds@[i].chord_text@
                &&& r@[i].action@ == binds@[i].action_text@
            },
{
    let mut out: Vec<BindInfo> = Vec::new();
    let mut i: usize = 0;
    while i < binds.len()
        invariant
            i <= binds@.len(),
            out@.len() == i,
            forall|k: int|
                0 <= k < i ==> {
                    &&& (#[trigger] out@[k]).chord@ == binds@[k].chord_text@
                    &&& out@[k].action@ == binds@[k].action_text@
                },
        decreases binds.len() - i,
    {
        out.push(
            BindInfo { chord: binds[i].chord_text.clone(), action: binds[i].action_text.clone() },
        );
        i += 1;
    }
    out
}

/// One window as answered to `list-windows`: its desk (0 when no desk holds
/// it) and whether it floats on the active desk.
pub fn window_info(ws: &Workspaces, window: u32, title: String, focused: Option<u32>) -> (r:
    WindowInfo)
    requires
        ws.wf(),
    ensures
        r.id == window,
        r.title == title,
        r.focused == (focused == Some(window)),
        r.workspace == match find_spec(ws.list_spec(), window) {
            Some(id) => id,
            None => 0,
        },
        r.floating == (find_spec(ws.list_spec(), window) is Some && !ws.active_ws().tree.windows_spec().contains(
            window,
        ) && entry_ids(ws.active_ws().floating@).contains(window)),
{
    let found = ws.find_workspace(window);
    let workspace = match found {
        Some(id) => id,
        None => 0,
    };
    let floating = match found {
        Some(_) => {
            let active = ws.active_ref();
            !active.tree.contains(window) && active.floats(window)
        },
        None => false,
    };
    WindowInfo { id: window, title, focused: focused == Some(window), workspace, floating }
}

/// The workspaces event the bar listens to, for a snapshot.
pub fn workspaces_event(active: u32, list: &Vec<(u32, usize, String, bool)>) -> (r: Event)
    ensures
        r matches Event::WorkspacesChanged { active: a, workspaces: ws } && a == active && ws@.len()
            == list@.len() && forall|i: int|
            0 <= i < ws@.len() ==> {
                &&& (#[trigger] ws@[i]).id == list@[i].0
                &&& ws@[i].focused == (list@[i].0 == active)
                &&& ws@[i].windows == list@[i].1
            },
{
    Event::WorkspacesChanged { active, workspaces: workspace_infos(active, list) }
}

/// The focus event: the focused window and its title, or id 0 (and no
/// title) when nothing has focus.
pub fn focused_event(focused: Option<u32>, title: String) -> (r: Event)
    ensures
        focused matches Some(w) ==> r == (Event::WindowFocused { id: w, title }),
        focused is None ==> (r matches Event::WindowFocused { id: 0, title: t } && t@.len() == 0),
{
    match focused {
        Some(w) => Event::WindowFocused { id: w, title },
        None => Event::WindowFocused { id: 0, title: String::new() },
    }
}

/// A window committed with title `title`; `remembered` is the title last
/// seen for it. The bar hears of the title exactly when it changed (a first
/// title counts as a change); `focused` tells whether the window has focus.
pub fn title_event(remembered: Option<&String>, id: u32, title: String, focused: bool) -> (r: Option<Event>)
    ensures
        r is Some <==> !(remembered matches Some(t) && t@ == title@),
        r matches Some(e) ==> e == (Event::WindowTitle { id, title, focused }),
{
    let same = match remembered {
        Some(t) => str_eq(t.as_str(), title.as_str()),
        None => false,
    };
    if same {
        None
    } else {
        Some(Event::WindowTitle { id, title, focused })
    }
}

/// What a `wallpaper` request does: clear the wallpaper (back to the
/// gradient), switch to the file, or refuse a path that is no file.
pub enum WallpaperChange {
    Clear,
    SetTo(String),
    NoSuchFile(String),
}

/// "default" and "" mean: no wallpaper.
pub open spec fn clears_wallpaper(path: Seq<char>) -> bool {
    path == "default"@ || path.len() == 0
}

/// Decide a `wallpaper` request for `path`; `is_file` tells whether a file
/// is there (asked only when it matters).
pub fn wallpaper_change(path: String, is_file: bool) -> (r: WallpaperChange)
    ensures
        clears_wallpaper(path@) ==> r is Clear,
        !clears_wallpaper(path@) && is_file ==> (r matches WallpaperChange::SetTo(p) && p@ == path@),
        !clears_wallpaper(path@) && !is_file ==> (r matches WallpaperChange::NoSuchFile(p) && p@
            == path@),
{
    let v = chars_of(path.as_str());
    if v.len() == 0 || chars_are(&v, "default") {
        WallpaperChange::Clear
    } else if is_file {
        WallpaperChange::SetTo(path)
    } else {
        WallpaperChange::NoSuchFile(path)
    }
}

/// Where a `screenshot` request writes its PNG: the path asked for, or
/// `/tmp/vendiwm-shot.png`.
pub fn screenshot_path(path: Option<String>) -> (r: String)
    ensures
        path matches Some(p) ==> r@ == p@,
        path is None ==> r@ == "/tmp/vendiwm-shot.png"@,
{
    match path {
        Some(p) => p,
        None => "/tmp/vendiwm-shot.png".to_owned(),
    }
}

} // verus!
