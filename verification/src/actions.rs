//! What a keybinding does: the decision half of running an `Action`.
//!
//! `Workspaces::run_action` changes the desks as the binding asks and hands
//! back an `Effect`, the one thing left for the compositor to do outside
//! (spawn a process, close or kill a client, unmap windows, toast, lock,
//! quit). Where windows are mapped right now comes in with the call, in an
//! `ActionContext`.
use vstd::prelude::*;

use crate::desk::{
    center_fits,
    entry_index,
    find_entry,
    float_fits,
    float_h,
    float_rect,
    float_resize_fits,
    float_w,
    half,
    nearest_in_dir,
    window_in_dir,
};
use crate::geometry::Rect;
use crate::input::{Action, Dir};
use crate::ipc::{Request, SplitDir};
use crate::layout::Direction;
use crate::layout::LayoutMode;
use crate::workspaces::{
    Workspace,
    Workspaces,
    all_windows_spec,
    entry_ids,
    find_spec,
    lemma_pos_of,
    pos_of,
};

verus! {

/// What the compositor knows around a binding: the windows still alive,
/// the tiling viewport (none without an output), and where each window is
/// mapped right now.
pub struct ActionContext {
    pub live: Vec<u32>,
    pub viewport: Option<Rect>,
    pub mapped: Vec<(u32, Rect)>,
}

/// The work a binding leaves for the compositor once the desks are updated.
#[derive(Debug, Clone)]
pub enum Effect {
    /// Nothing beyond relaying out what changed.
    Nothing,
    /// Run this shell command, detached.
    Spawn(String),
    /// Ask this window to close.
    Close(u32),
    /// Kill this window's client; the window is already off every desk.
    Kill(u32),
    /// Unmap these windows (their desk left the screen).
    Hide(Vec<u32>),
    /// Re-read the config file.
    ReloadConfig,
    /// The layout changed to this mode: show a short toast.
    Toast(LayoutMode),
    /// Open or close the overview.
    ToggleOverview,
    /// Flip the blur behind overlay surfaces.
    ToggleBlur,
    /// Step this window's opacity.
    CycleOpacity(u32),
    /// Lock the session.
    Lock,
    /// Leave the compositor.
    Quit,
}

/// Where `w` is mapped, by its first entry in `mapped`.
pub open spec fn geom_of(mapped: Seq<(u32, Rect)>, w: u32) -> Option<Rect> {
    if entry_ids(mapped).contains(w) {
        Some(mapped[entry_index(mapped, w)].1)
    } else {
        None
    }
}

/// The windows of `windows` that are mapped, in order, with their geometry.
pub open spec fn dir_cands(windows: Seq<u32>, mapped: Seq<(u32, Rect)>) -> Seq<(u32, Rect)>
    decreases windows.len(),
{
    if windows.len() == 0 {
        Seq::empty()
    } else {
        let prev = dir_cands(windows.drop_last(), mapped);
        match geom_of(mapped, windows.last()) {
            Some(r) => prev.push((windows.last(), r)),
            None => prev,
        }
    }
}

/// The window a directional binding aims at on desk `ws`: the nearest
/// mapped window of the desk toward `d` from the focused one, if the
/// focused one is mapped.
pub open spec fn dir_target(ws: Workspace, live: Seq<u32>, mapped: Seq<(u32, Rect)>, d: Dir) -> Option<u32> {
    match ws.focused_spec(live) {
        None => None,
        Some(f) => match geom_of(mapped, f) {
            None => None,
            Some(from) => match nearest_in_dir(from, dir_cands(ws.windows_spec(), mapped), f, d) {
                Some((_, w)) => Some(w),
                None => None,
            },
        },
    }
}

/// Where a window popped out of the tiling lands: `float_rect` of the
/// viewport (a zero rectangle without one, never used then).
pub open spec fn float_spot(vp: Option<Rect>) -> Rect {
    match vp {
        Some(v) => Rect {
            x: (v.x + half(v.w - float_w(v))) as i32,
            y: (v.y + half(v.h - float_h(v))) as i32,
            w: float_w(v) as i32,
            h: float_h(v) as i32,
        },
        None => Rect { x: 0, y: 0, w: 0, h: 0 },
    }
}

/// Where `w` is mapped according to `mapped`.
pub fn geometry_of(mapped: &Vec<(u32, Rect)>, w: u32) -> (r: Option<Rect>)
    ensures
        r == geom_of(mapped@, w),
{
    match find_entry(mapped, w) {
        Some(k) => Some(mapped[k].1),
        None => None,
    }
}

/// The mapped windows among `windows`, with their geometry, in order.
pub fn direction_candidates(windows: &Vec<u32>, mapped: &Vec<(u32, Rect)>) -> (r: Vec<(u32, Rect)>)
    ensures
        r@ == dir_cands(windows@, mapped@),
{
    let mut out: Vec<(u32, Rect)> = Vec::new();
    let mut i: usize = 0;
    while i < windows.len()
        invariant
            i <= windows@.len(),
            out@ == dir_cands(windows@.take(i as int), mapped@),
        decreases windows.len() - i,
    {
        let w = windows[i];
        proof {
            let t = windows@.take(i + 1);
            assert(t.drop_last() =~= windows@.take(i as int));
            assert(t.last() == w);
        }
        match geometry_of(mapped, w) {
            Some(r) => out.push((w, r)),
            None => {},
        }
        i += 1;
    }
    proof {
        assert(windows@.take(windows@.len() as int) =~= windows@);
    }
    out
}

/// `new` differs from `old` only in the active desk, and is well formed.
pub open spec fn desk_step(old: Workspaces, new: Workspaces) -> bool {
    &&& new.wf()
    &&& new.list_spec() == old.list_spec().update(
        pos_of(old.list_spec(), old.active_spec()),
        new.active_ws(),
    )
    &&& new.active_spec() == old.active_spec()
    &&& new.previous_spec() == old.previous_spec()
    &&& new.shown_spec() == old.shown_spec()
    &&& new.scratchpad_spec() == old.scratchpad_spec()
}

/// After a change made through `active()` that keeps the desk's id and
/// well-formedness, only the active desk changed.
pub(crate) proof fn lemma_desk_step(old: Workspaces, new: Workspaces)
    requires
        old.wf(),
        new.list_spec() == old.list_spec().update(
            pos_of(old.list_spec(), old.active_spec()),
            new.list_spec()[pos_of(old.list_spec(), old.active_spec())],
        ),
        new.list_spec()[pos_of(old.list_spec(), old.active_spec())].id == old.active_spec(),
        new.list_spec()[pos_of(old.list_spec(), old.active_spec())].wf(),
        new.active_spec() == old.active_spec(),
        new.previous_spec() == old.previous_spec(),
        new.shown_spec() == old.shown_spec(),
        new.scratchpad_spec() == old.scratchpad_spec(),
    ensures
        desk_step(old, new),
        new.active_ws() == new.list_spec()[pos_of(old.list_spec(), old.active_spec())],
{
    old.lemma_wf();
    Workspaces::lemma_active_update(
        old,
        new,
        new.list_spec()[pos_of(old.list_spec(), old.active_spec())],
    );
}

/// A binding's inputs keep its arithmetic inside machine integers: a fresh
/// desk number past the last one, a floating resize, re-centering, and the
/// size of a window popped out of the tiling.
pub open spec fn action_ready(ws: Workspaces, action: Action, ctx: ActionContext) -> bool {
    let a = ws.active_ws();
    let focused = a.focused_spec(ctx.live@);
    match action {
        Action::WorkspaceNext => ws.active_spec() + ws.list_spec().len() + 1 < u32::MAX,
        Action::ResizeDir(_) => match focused {
            Some(f) => entry_ids(a.floating@).contains(f) ==> float_resize_fits(
                a.floating@[entry_index(a.floating@, f)].1,
            ),
            None => true,
        },
        Action::CenterFloating => match (focused, ctx.viewport) {
            (Some(f), Some(vp)) => entry_ids(a.floating@).contains(f) ==> center_fits(
                vp,
                a.floating@[entry_index(a.floating@, f)].1,
            ),
            _ => true,
        },
        Action::ToggleFloating => match (focused, ctx.viewport) {
            (Some(f), Some(vp)) => !entry_ids(a.floating@).contains(f) ==> float_fits(vp),
            _ => true,
        },
        _ => true,
    }
}

/// `new` is `old` after switching to desk `t` (when there is one), with the
/// effect that hides the windows that left the screen; else nothing changed.
pub open spec fn switched_to(old: Workspaces, new: Workspaces, t: Option<u32>, r: Effect) -> bool {
    match t {
        Some(id) => r matches Effect::Hide(h) && Workspaces::switched(old, new, id, h@),
        None => new == old && r == Effect::Nothing,
    }
}

/// What running `action` in context `ctx` makes of the desks `old`, with
/// `r` the effect left for the compositor.
pub open spec fn action_done(old: Workspaces, new: Workspaces, action: Action, ctx: ActionContext, r: Effect) -> bool {
    let a = old.active_ws();
    let b = new.active_ws();
    let live = ctx.live@;
    let focused = a.focused_spec(live);
    match action {
        Action::Spawn(cmd) => new == old && r == Effect::Spawn(cmd),
        Action::Close => new == old && r == match focused {
            Some(w) => Effect::Close(w),
            None => Effect::Nothing,
        },
        Action::Kill => match focused {
            Some(w) => r == Effect::Kill(w) && Workspaces::window_removed(old, new, w, live),
            None => new == old && r == Effect::Nothing,
        },
        Action::FocusNext => r == Effect::Nothing && desk_step(old, new)
            && Workspace::focus_step_done(a, b, true),
        Action::FocusPrev => r == Effect::Nothing && desk_step(old, new)
            && Workspace::focus_step_done(a, b, false),
        Action::FocusDir(d) => r == Effect::Nothing && match dir_target(a, live, ctx.mapped@, d) {
            Some(t) => desk_step(old, new) && Workspace::focus_target_done(a, b, t),
            None => new == old,
        },
        Action::MoveDir(d) => r == Effect::Nothing && match (
            focused,
            dir_target(a, live, ctx.mapped@, d),
        ) {
            (Some(f), Some(t)) => desk_step(old, new) && Workspace::swap_toward_done(a, b, f, t),
            _ => new == old,
        },
        Action::ResizeDir(d) => r == Effect::Nothing && desk_step(old, new)
            && Workspace::resize_toward_done(
            a,
            b,
            focused,
            d,
            focused is Some && entry_ids(a.floating@).contains(focused->0),
        ),
        Action::SetNextSplit(dir) => r == Effect::Nothing && desk_step(old, new)
            && Workspace::set_split_done(a, b, dir),
        Action::Workspace(n) => switched_to(old, new, Some(n), r),
        Action::MoveToWorkspace(n) => {
            &&& Workspaces::moved_focused(old, new, n, live, focused)
            &&& r matches Effect::Hide(h) && h@ == match focused {
                Some(w) => if n != old.active_spec() {
                    seq![w]
                } else {
                    Seq::empty()
                },
                None => Seq::empty(),
            }
        },
        Action::MoveToWorkspaceFollow(n) => r matches Effect::Hide(h) && exists|mid: Workspaces|
            Workspaces::moved_focused(old, mid, n, live, focused) && #[trigger] Workspaces::switched(
                mid,
                new,
                n,
                h@,
            ),
        Action::WorkspaceNext => exists|t: Option<u32>|
            #[trigger] Workspaces::adjacent_ok(old, true, t) && switched_to(old, new, t, r),
        Action::WorkspacePrev => exists|t: Option<u32>|
            #[trigger] Workspaces::adjacent_ok(old, false, t) && switched_to(old, new, t, r),
        Action::WorkspaceLast => switched_to(old, new, Some(old.previous_spec()), r),
        Action::ReloadConfig => new == old && r == Effect::ReloadConfig,
        Action::CenterFloating => r == Effect::Nothing && match (focused, ctx.viewport) {
            (Some(f), Some(vp)) => desk_step(old, new) && Workspace::center_floating_done(
                a,
                b,
                f,
                vp,
                entry_ids(a.floating@).contains(f),
            ),
            _ => new == old,
        },
        Action::CycleLayout => r == Effect::Toast(a.mode.next_spec()) && desk_step(old, new)
            && Workspace::cycle_layout_done(a, b, a.mode.next_spec()),
        Action::ToggleFloating => r == Effect::Nothing && match focused {
            Some(f) => if entry_ids(a.floating@).contains(f) {
                desk_step(old, new) && Workspace::toggle_floating_done(a, b, f, float_spot(None))
            } else if ctx.viewport is Some {
                desk_step(old, new) && Workspace::toggle_floating_done(
                    a,
                    b,
                    f,
                    float_spot(ctx.viewport),
                )
            } else {
                new == old
            },
            None => new == old,
        },
        Action::ToggleFullscreen => r == Effect::Nothing && match focused {
            Some(f) => desk_step(old, new) && Workspace::set_fullscreen_done(
                a,
                b,
                f,
                a.fullscreen != Some(f),
            ),
            None => new == old,
        },
        Action::ToggleOverview => new == old && r == Effect::ToggleOverview,
        Action::ToggleBlur => new == old && r == Effect::ToggleBlur,
        Action::CycleOpacity => new == old && r == match focused {
            Some(w) => Effect::CycleOpacity(w),
            None => Effect::Nothing,
        },
        Action::Lock => new == old && r == Effect::Lock,
        Action::Quit => new == old && r == Effect::Quit,
    }
}

/// Focus-next followed by focus-prev puts focus back on the window that had
/// it, on the same desk, with the tiles unchanged.
pub proof fn law_focus_next_then_prev(
    w0: Workspaces,
    w1: Workspaces,
    w2: Workspaces,
    ctx: ActionContext,
    r1: Effect,
    r2: Effect,
)
    requires
        w0.wf(),
        w0.active_ws().tree.windows_spec().len() > 0,
        action_done(w0, w1, Action::FocusNext, ctx, r1),
        action_done(w1, w2, Action::FocusPrev, ctx, r2),
    ensures
        w2.active_spec() == w0.active_spec(),
        w2.active_ws().tree.windows_spec() == w0.active_ws().tree.windows_spec(),
        w2.active_ws().tree.focused_spec() == w0.active_ws().tree.focused_spec(),
{
    w0.lemma_wf();
    w1.lemma_wf();
    w2.lemma_wf();
    crate::layout::law_focus_prev_undoes_next(
        w0.active_ws().tree,
        w1.active_ws().tree,
        w2.active_ws().tree,
    );
}

impl Workspaces {
    /// The window a directional binding aims at (see `dir_target`).
    pub fn target_in_dir(&self, ctx: &ActionContext, d: Dir) -> (r: Option<u32>)
        requires
            self.wf(),
        ensures
            r == dir_target(self.active_ws(), ctx.live@, ctx.mapped@, d),
    {
        proof {
            self.lemma_wf();
        }
        let ws = self.active_ref();
        let f = match ws.focused_window(&ctx.live) {
            Some(f) => f,
            None => return None,
        };
        let from = match geometry_of(&ctx.mapped, f) {
            Some(g) => g,
            None => return None,
        };
        let cands = direction_candidates(&ws.windows(), &ctx.mapped);
        window_in_dir(from, f, &cands, d)
    }
}

impl Workspaces {
    /// Switch to desk `id`, handing back the windows to unmap.
    fn switch_effect(&mut self, id: u32) -> (r: Effect)
        requires
            old(self).wf(),
        ensures
            switched_to(*old(self), *final(self), Some(id), r),
    {
        let hidden = self.switch_to(id);
        Effect::Hide(hidden)
    }

    /// Send the focused window to desk `id` and switch there.
    fn move_and_follow(&mut self, id: u32, live: &Vec<u32>) -> (r: Effect)
        requires
            old(self).wf(),
            old(self).room(),
        ensures
            r matches Effect::Hide(h) && exists|mid: Workspaces|
                Workspaces::moved_focused(*old(self), mid, id, live@, old(self).active_ws().focused_spec(live@))
                    && #[trigger] Workspaces::switched(mid, *final(self), id, h@),
    {
        self.move_focused_to(id, live);
        let ghost mid = *self;
        let hidden = self.switch_to(id);
        proof {
            assert(Workspaces::moved_focused(*old(self), mid, id, live@, old(self).active_ws().focused_spec(live@)));
            assert(Workspaces::switched(mid, *self, id, hidden@));
        }
        let r = Effect::Hide(hidden);
        proof {
            assert(r matches Effect::Hide(h) && h@ == hidden@);
        }
        r
    }

    /// Run a keybinding's action on the desks. Everything the action decides
    /// about windows, focus and desks happens here; what is left to do
    /// outside (processes, clients, unmapping, toasts) comes back as the
    /// effect.
    pub fn run_action(&mut self, action: Action, ctx: &ActionContext) -> (r: Effect)
        requires
            old(self).wf(),
            old(self).room(),
            action_ready(*old(self), action, *ctx),
        ensures
            action_done(*old(self), *final(self), action, *ctx, r),
    {
        proof {
            self.lemma_wf();
            self.lemma_room();
            lemma_pos_of(self.list_spec(), self.active_spec());
        }
        let ghost pre = *self;
        let focused = self.active_ref().focused_window(&ctx.live);
        let ghost act = action;
        let r = match action {
            Action::Spawn(cmd) => {
                let e = Effect::Spawn(cmd);
                proof {
                    assert(action_done(pre, *self, act, *ctx, e));
                }
                e
            },
            Action::Close => {
                let e = match focused {
                    Some(w) => Effect::Close(w),
                    None => Effect::Nothing,
                };
                proof {
                    assert(action_done(pre, *self, act, *ctx, e));
                }
                e
            },
            Action::Kill => {
                let e = match focused {
                    Some(w) => {
                        self.remove_window(w, &ctx.live);
                        Effect::Kill(w)
                    },
                    None => Effect::Nothing,
                };
                proof {
                    assert(action_done(pre, *self, act, *ctx, e));
                }
                e
            },
            Action::FocusNext => {
                self.active().focus_step(true);
                proof {
                    lemma_desk_step(pre, *self);
                    assert(action_done(pre, *self, act, *ctx, Effect::Nothing));
                }
                Effect::Nothing
            },
            Action::FocusPrev => {
                self.active().focus_step(false);
                proof {
                    lemma_desk_step(pre, *self);
                    assert(action_done(pre, *self, act, *ctx, Effect::Nothing));
                }
                Effect::Nothing
            },
            Action::FocusDir(d) => {
                if let Some(t) = self.target_in_dir(ctx, d) {
                    self.active().focus_target(t);
                    proof {
                        lemma_desk_step(pre, *self);
                    }
                }
                proof {
                    assert(action_done(pre, *self, act, *ctx, Effect::Nothing));
                }
                Effect::Nothing
            },
            Action::MoveDir(d) => {
                let t = self.target_in_dir(ctx, d);
                match (focused, t) {
                    (Some(f), Some(t)) => {
                        self.active().swap_toward(f, t);
                        proof {
                            lemma_desk_step(pre, *self);
                        }
                    },
                    _ => {},
                }
                proof {
                    assert(action_done(pre, *self, act, *ctx, Effect::Nothing));
                }
                Effect::Nothing
            },
            Action::ResizeDir(d) => {
                self.active().resize_toward(focused, d);
                proof {
                    lemma_desk_step(pre, *self);
                    assert(action_done(pre, *self, act, *ctx, Effect::Nothing));
                }
                Effect::Nothing
            },
            Action::SetNextSplit(dir) => {
                self.active().set_split(dir);
                proof {
                    lemma_desk_step(pre, *self);
                    assert(action_done(pre, *self, act, *ctx, Effect::Nothing));
                }
                Effect::Nothing
            },
            Action::Workspace(n) => {
                let e = self.switch_effect(n);
                proof {
                    assert(action_done(pre, *self, act, *ctx, e));
                }
                e
            },
            Action::MoveToWorkspace(n) => {
                let active = self.active_id();
                let moved = self.move_focused_to(n, &ctx.live);
                let mut gone: Vec<u32> = Vec::new();
                if let Some(w) = moved {
                    if n != active {
                        gone.push(w);
                    }
                }
                proof {
                    assert(gone@ =~= match focused {
                        Some(w) => if n != pre.active_spec() {
                            seq![w]
                        } else {
                            Seq::empty()
                        },
                        None => Seq::empty(),
                    });
                }
                let e = Effect::Hide(gone);
                proof {
                    assert(action_done(pre, *self, act, *ctx, e));
                }
                e
            },
            Action::MoveToWorkspaceFollow(n) => {
                let e = self.move_and_follow(n, &ctx.live);
                proof {
                    assert(action_done(pre, *self, act, *ctx, e));
                }
                e
            },
            Action::WorkspaceNext => {
                let t = self.adjacent_id(true);
                let e = match t {
                    Some(id) => self.switch_effect(id),
                    None => Effect::Nothing,
                };
                proof {
                    assert(switched_to(pre, *self, t, e));
                    assert(action_done(pre, *self, act, *ctx, e));
                }
                e
            },
            Action::WorkspacePrev => {
                let t = self.adjacent_id(false);
                let e = match t {
                    Some(id) => self.switch_effect(id),
                    None => Effect::Nothing,
                };
                proof {
                    assert(switched_to(pre, *self, t, e));
                    assert(action_done(pre, *self, act, *ctx, e));
                }
                e
            },
            Action::WorkspaceLast => {
                let prev = self.previous_id();
                let e = self.switch_effect(prev);
                proof {
                    assert(action_done(pre, *self, act, *ctx, e));
                }
                e
            },
            Action::ReloadConfig => {
                let e = Effect::ReloadConfig;
                proof {
                    assert(action_done(pre, *self, act, *ctx, e));
                }
                e
            },
            Action::CenterFloating => {
                match (focused, ctx.viewport) {
                    (Some(f), Some(vp)) => {
                        self.active().center_floating(f, vp);
                        proof {
                            lemma_desk_step(pre, *self);
                        }
                    },
                    _ => {},
                }
                proof {
                    assert(action_done(pre, *self, act, *ctx, Effect::Nothing));
                }
                Effect::Nothing
            },
            Action::CycleLayout => {
                let m = self.active().cycle_layout();
                proof {
                    lemma_desk_step(pre, *self);
                    assert(action_done(pre, *self, act, *ctx, Effect::Toast(m)));
                }
                Effect::Toast(m)
            },
            Action::ToggleFloating => {
                if let Some(f) = focused {
                    if self.active_ref().floats(f) {
                        self.active().toggle_floating(f, Rect { x: 0, y: 0, w: 0, h: 0 });
                        proof {
                            lemma_desk_step(pre, *self);
                        }
                    } else if let Some(vp) = ctx.viewport {
                        let spot = float_rect(vp);
                        proof {
                            assert(spot == float_spot(Some(vp)));
                        }
                        self.active().toggle_floating(f, spot);
                        proof {
                            lemma_desk_step(pre, *self);
                        }
                    }
                }
                proof {
                    assert(action_done(pre, *self, act, *ctx, Effect::Nothing));
                }
                Effect::Nothing
            },
            Action::ToggleFullscreen => {
                if let Some(f) = focused {
                    let on = self.active_ref().fullscreen_toggle_on(f);
                    self.active().set_fullscreen(f, on);
                    proof {
                        lemma_desk_step(pre, *self);
                    }
                }
                proof {
                    assert(action_done(pre, *self, act, *ctx, Effect::Nothing));
                }
                Effect::Nothing
            },
            Action::ToggleOverview => {
                let e = Effect::ToggleOverview;
                proof {
                    assert(action_done(pre, *self, act, *ctx, e));
                }
                e
            },
            Action::ToggleBlur => {
                let e = Effect::ToggleBlur;
                proof {
                    assert(action_done(pre, *self, act, *ctx, e));
                }
                e
            },
            Action::CycleOpacity => {
                let e = match focused {
                    Some(w) => Effect::CycleOpacity(w),
                    None => Effect::Nothing,
                };
                proof {
                    assert(action_done(pre, *self, act, *ctx, e));
                }
                e
            },
            Action::Lock => {
                let e = Effect::Lock;
                proof {
                    assert(action_done(pre, *self, act, *ctx, e));
                }
                e
            },
            Action::Quit => {
                let e = Effect::Quit;
                proof {
                    assert(action_done(pre, *self, act, *ctx, e));
                }
                e
            },
        };
        r
    }
}

fn half_i64(x: i64) -> (r: i64)
    requires
        -0x1_0000_0000_0000 <= x <= 0x1_0000_0000_0000,
    ensures
        r == half(x as int),
{
    if x >= 0 {
        x / 2
    } else {
        -((-x) / 2)
    }
}

fn fits_i64(x: i64) -> (r: bool)
    ensures
        r == crate::desk::fits_i32(x as int),
{
    i32::MIN as i64 <= x && x <= i32::MAX as i64
}

/// Whether a floating resize of `r` stays inside `i32`.
fn resize_ok(r: Rect) -> (ok: bool)
    ensures
        ok == float_resize_fits(r),
{
    let w = r.w as i64;
    let h = r.h as i64;
    fits_i64(w + 48) && fits_i64(h + 48) && fits_i64(w - 48) && fits_i64(h - 48)
}

/// Whether centering `r` in `vp` stays inside `i32`.
fn center_ok(vp: Rect, r: Rect) -> (ok: bool)
    ensures
        ok == center_fits(vp, r),
{
    let dw = vp.w as i64 - r.w as i64;
    let dh = vp.h as i64 - r.h as i64;
    fits_i64(dw) && fits_i64(dh) && fits_i64(vp.x as i64 + half_i64(dw)) && fits_i64(
        vp.y as i64 + half_i64(dh),
    )
}

/// Whether popping a window out of the tiling in `vp` stays inside `i32`.
fn float_ok(vp: Rect) -> (ok: bool)
    ensures
        ok == float_fits(vp),
{
    if vp.w < 0 || vp.h < 0 {
        return false;
    }
    let w3 = vp.w as i64 * 3;
    let h3 = vp.h as i64 * 3;
    if w3 > i32::MAX as i64 || h3 > i32::MAX as i64 {
        return false;
    }
    let fw = if w3 / 5 >= 320 {
        w3 / 5
    } else {
        320
    };
    let fh = if h3 / 5 >= 240 {
        h3 / 5
    } else {
        240
    };
    proof {
        assert(fw == float_w(vp));
        assert(fh == float_h(vp));
    }
    fits_i64(vp.x as i64 + half_i64(vp.w as i64 - fw)) && fits_i64(
        vp.y as i64 + half_i64(vp.h as i64 - fh),
    )
}

impl Workspaces {
    /// Whether `run_action` can take `action` in `ctx` (see `action_ready`).
    pub fn can_run(&self, action: &Action, ctx: &ActionContext) -> (r: bool)
        requires
            self.wf(),
        ensures
            r == action_ready(*self, *action, *ctx),
    {
        proof {
            self.lemma_wf();
        }
        let a = self.active_ref();
        let focused = a.focused_window(&ctx.live);
        match action {
            Action::WorkspaceNext => {
                let n = self.iter().len();
                n < u32::MAX as usize && (self.active_id() as u64) + (n as u64) + 1
                    < u32::MAX as u64
            },
            Action::ResizeDir(_) => match focused {
                Some(f) => match find_entry(&a.floating, f) {
                    Some(k) => resize_ok(a.floating[k].1),
                    None => true,
                },
                None => true,
            },
            Action::CenterFloating => match (focused, ctx.viewport) {
                (Some(f), Some(vp)) => match find_entry(&a.floating, f) {
                    Some(k) => center_ok(vp, a.floating[k].1),
                    None => true,
                },
                _ => true,
            },
            Action::ToggleFloating => match (focused, ctx.viewport) {
                (Some(f), Some(vp)) => a.floats(f) || float_ok(vp),
                _ => true,
            },
            _ => true,
        }
    }
}

/// Some desk holds `w` among its tiles or floating windows.
pub open spec fn shows(list: Seq<Workspace>, w: u32) -> bool {
    exists|i: int| 0 <= i < list.len() && #[trigger] list[i].windows_spec().contains(w)
}

/// A desk holding `w` is found.
proof fn lemma_find_some(list: Seq<Workspace>, w: u32, i: int)
    requires
        0 <= i < list.len(),
        list[i].contains_spec(w),
    ensures
        find_spec(list, w) is Some,
    decreases list.len(),
{
    if i > 0 && !list[0].contains_spec(w) {
        assert(list.drop_first()[i - 1] == list[i]);
        lemma_find_some(list.drop_first(), w, i - 1);
    }
}

impl Workspaces {
    /// Whether some desk holds `w` among its tiles or floating windows.
    fn shows_window(&self, w: u32) -> (r: bool)
        ensures
            r == shows(self.list_spec(), w),
    {
        let list = self.iter();
        let mut i: usize = 0;
        while i < list.len()
            invariant
                i <= list@.len(),
                list@ == self.list_spec(),
                forall|j: int| 0 <= j < i ==> !(#[trigger] list@[j]).windows_spec().contains(w),
            decreases list.len() - i,
        {
            if crate::layout::contains_id(&list[i].windows(), w) {
                return true;
            }
            i += 1;
        }
        false
    }

    /// Focus window `id` wherever it lives (an IPC request): switch to the
    /// desk that holds it, then focus it there. None when no desk shows it;
    /// else the windows to unmap.
    pub fn focus_window_by_id(&mut self, id: u32) -> (r: Option<Vec<u32>>)
        requires
            old(self).wf(),
        ensures
            r is None <==> !shows(old(self).list_spec(), id),
            r is None ==> *final(self) == *old(self),
            r matches Some(h) ==> exists|mid: Workspaces|
                #[trigger] Workspaces::switched(
                    *old(self),
                    mid,
                    find_spec(old(self).list_spec(), id)->0,
                    h@,
                ) && desk_step(mid, *final(self)) && Workspace::focus_target_done(
                    mid.active_ws(),
                    final(self).active_ws(),
                    id,
                ),
    {
        if !self.shows_window(id) {
            return None;
        }
        proof {
            let i = choose|i: int|
                0 <= i < self.list_spec().len() && #[trigger] self.list_spec()[i].windows_spec().contains(
                    id,
                );
            lemma_find_some(self.list_spec(), id, i);
        }
        let k = match self.find_workspace(id) {
            Some(k) => k,
            None => return None,
        };
        let hidden = self.switch_to(k);
        let ghost mid = *self;
        proof {
            mid.lemma_wf();
            lemma_pos_of(mid.list_spec(), mid.active_spec());
        }
        self.active().focus_target(id);
        proof {
            lemma_desk_step(mid, *self);
            assert(Workspaces::switched(*old(self), mid, k, hidden@));
        }
        let r = Some(hidden);
        proof {
            assert(r matches Some(h) && h@ == hidden@);
        }
        r
    }
}

/// `args` joined with single spaces.
pub open spec fn joined(args: Seq<Seq<char>>) -> Seq<char>
    decreases args.len(),
{
    if args.len() == 0 {
        Seq::empty()
    } else if args.len() == 1 {
        args[0]
    } else {
        joined(args.drop_last()) + seq![' '] + args.last()
    }
}

/// The characters of each string.
pub open spec fn views(args: Seq<String>) -> Seq<Seq<char>> {
    args.map_values(|a: String| a@)
}

/// The command line a spawn request runs: its words joined by spaces.
pub fn join_args(args: &Vec<String>) -> (r: String)
    ensures
        r@ == joined(views(args@)),
{
    let mut out = String::new();
    let mut i: usize = 0;
    while i < args.len()
        invariant
            i <= args@.len(),
            out@ == joined(views(args@.take(i as int))),
        decreases args.len() - i,
    {
        let ghost before = out@;
        if i > 0 {
            crate::text::push_char(&mut out, ' ');
        }
        let cs = crate::text::chars_of(args[i].as_str());
        let mut j: usize = 0;
        while j < cs.len()
            invariant
                j <= cs@.len(),
                cs@ == args@[i as int]@,
                out@ == before + (if i > 0 {
                    seq![' ']
                } else {
                    Seq::empty()
                }) + cs@.take(j as int),
            decreases cs.len() - j,
        {
            crate::text::push_char(&mut out, cs[j]);
            proof {
                assert(cs@.take(j + 1) =~= cs@.take(j as int).push(cs@[j as int]));
            }
            j += 1;
        }
        proof {
            let t = views(args@.take(i + 1));
            assert(t.drop_last() =~= views(args@.take(i as int)));
            assert(t.last() == args@[i as int]@);
            assert(cs@.take(j as int) =~= cs@);
            if i == 0 {
                assert(t.len() == 1);
                assert(out@ =~= t[0]);
            } else {
                assert(out@ =~= joined(t.drop_last()) + seq![' '] + t.last());
            }
        }
        i += 1;
    }
    proof {
        assert(args@.take(args@.len() as int) =~= args@);
    }
    out
}

/// How a request that touches the desks was answered.
#[derive(Debug)]
pub enum Reply {
    /// Done; unmap these windows (there may be none).
    Done(Vec<u32>),
    /// Run this command line (`sh -c`); the answer is whether it started.
    Spawn(String),
    /// Ask this window to close.
    Close(u32),
    /// A focus request named a window no desk shows.
    NoWindow(u32),
    /// A close request found no window.
    NoSuchWindow,
    /// Not about the desks: the compositor answers it.
    Pass(Request),
}

/// What answering `req` makes of the desks `old`, with reply `r`.
pub open spec fn request_done(old: Workspaces, new: Workspaces, req: Request, live: Seq<u32>, r: Reply) -> bool {
    let focused = old.active_ws().focused_spec(live);
    match req {
        Request::Spawn { args } => new == old && (r matches Reply::Spawn(cmd) && cmd@ == joined(
            views(args@),
        )),
        Request::Focus { window } => if shows(old.list_spec(), window) {
            r matches Reply::Done(h) && exists|mid: Workspaces|
                #[trigger] Workspaces::switched(old, mid, find_spec(old.list_spec(), window)->0, h@)
                    && desk_step(mid, new) && Workspace::focus_target_done(
                    mid.active_ws(),
                    new.active_ws(),
                    window,
                )
        } else {
            new == old && r == Reply::NoWindow(window)
        },
        Request::Close { window } => new == old && r == match window {
            None => match focused {
                Some(w) => Reply::Close(w),
                None => Reply::NoSuchWindow,
            },
            Some(id) => if shows(old.list_spec(), id) {
                Reply::Close(id)
            } else {
                Reply::NoSuchWindow
            },
        },
        Request::Workspace { id } => r matches Reply::Done(h) && Workspaces::switched(old, new, id, h@),
        Request::Split { dir } => (r matches Reply::Done(h) && h@.len() == 0) && desk_step(old, new)
            && Workspace::set_split_done(
            old.active_ws(),
            new.active_ws(),
            match dir {
                SplitDir::Horizontal => Direction::Horizontal,
                SplitDir::Vertical => Direction::Vertical,
            },
        ),
        Request::Move { window: _, to_workspace } => {
            &&& Workspaces::moved_focused(old, new, to_workspace, live, focused)
            &&& r matches Reply::Done(h) && h@ == match focused {
                Some(w) => if to_workspace != old.active_spec() {
                    seq![w]
                } else {
                    Seq::empty()
                },
                None => Seq::empty(),
            }
        },
        _ => new == old && r == Reply::Pass(req),
    }
}

impl Workspaces {
    /// Answer an IPC request as far as it concerns the desks: focus, close,
    /// switch, split, move (the focused window; the request's window field is
    /// not consulted) and spawn. Everything else is passed back.
    pub fn answer_request(&mut self, req: Request, live: &Vec<u32>) -> (r: Reply)
        requires
            old(self).wf(),
            old(self).room(),
        ensures
            request_done(*old(self), *final(self), req, live@, r),
    {
        proof {
            self.lemma_wf();
            lemma_pos_of(self.list_spec(), self.active_spec());
        }
        let ghost pre = *self;
        let ghost q = req;
        match req {
            Request::Spawn { args } => {
                let r = Reply::Spawn(join_args(&args));
                proof {
                    assert(request_done(pre, *self, q, live@, r));
                }
                r
            },
            Request::Focus { window } => {
                let r = match self.focus_window_by_id(window) {
                    Some(h) => {
                        let ghost hv = h@;
                        let r = Reply::Done(h);
                        proof {
                            assert(r matches Reply::Done(x) && x@ == hv);
                        }
                        r
                    },
                    None => Reply::NoWindow(window),
                };
                proof {
                    assert(request_done(pre, *self, q, live@, r));
                }
                r
            },
            Request::Close { window } => {
                let r = match window {
                    None => match self.active_ref().focused_window(live) {
                        Some(w) => Reply::Close(w),
                        None => Reply::NoSuchWindow,
                    },
                    Some(id) => if self.shows_window(id) {
                        Reply::Close(id)
                    } else {
                        Reply::NoSuchWindow
                    },
                };
                proof {
                    assert(request_done(pre, *self, q, live@, r));
                }
                r
            },
            Request::Workspace { id } => {
                let h = self.switch_to(id);
                let r = Reply::Done(h);
                proof {
                    assert(r matches Reply::Done(x) && x@ == h@);
                    assert(request_done(pre, *self, q, live@, r));
                }
                r
            },
            Request::Split { dir } => {
                self.active().set_split(dir.into());
                proof {
                    lemma_desk_step(pre, *self);
                }
                let r = Reply::Done(Vec::new());
                proof {
                    assert(request_done(pre, *self, q, live@, r));
                }
                r
            },
            Request::Move { window: _, to_workspace } => {
                let active = self.active_id();
                let moved = self.move_focused_to(to_workspace, live);
                let mut gone: Vec<u32> = Vec::new();
                if let Some(w) = moved {
                    if to_workspace != active {
                        gone.push(w);
                    }
                }
                let r = Reply::Done(gone);
                proof {
                    assert(request_done(pre, *self, q, live@, r));
                }
                r
            },
            other => {
                let r = Reply::Pass(other);
                proof {
                    assert(request_done(pre, *self, q, live@, r));
                }
                r
            },
        }
    }
}

impl Workspaces {
    /// A new window opens tiled on the active desk and takes the focus there
    /// (from a focused floating window too).
    pub fn open_window(&mut self, window: u32)
        requires
            old(self).wf(),
            old(self).room(),
        ensures
            desk_step(*old(self), *final(self)),
            final(self).active_ws().tree.focused_spec() == Some(window),
            forall|x: u32| #[trigger] final(self).active_ws().tree.windows_spec().contains(x) <==> (
            old(self).active_ws().tree.windows_spec().contains(x) || x == window),
            final(self).active_ws().tree.windows_spec().len() == old(
                self,
            ).active_ws().tree.windows_spec().len() + 1,
            final(self).active_ws().focus_floating is None,
            final(self).active_ws().floating == old(self).active_ws().floating,
            final(self).active_ws().stacks == old(self).active_ws().stacks,
            final(self).active_ws().fullscreen == old(self).active_ws().fullscreen,
            final(self).active_ws().mode == old(self).active_ws().mode,
    {
        proof {
            self.lemma_wf();
            self.lemma_room();
            lemma_pos_of(self.list_spec(), self.active_spec());
        }
        let ghost pre = *self;
        let ws = self.active();
        ws.insert_tiled(window);
        ws.focus_floating = None;
        proof {
            lemma_desk_step(pre, *self);
        }
    }
}

impl Workspaces {
    /// Whether the overview is open after the toggle binding: it closes when
    /// open, and opens only when some desk has a window to show.
    pub fn overview_toggle(&self, open: bool) -> (r: bool)
        ensures
            r == (!open && all_windows_spec(self.list_spec()).len() > 0),
    {
        if open {
            false
        } else {
            self.all_windows().len() > 0
        }
    }
}

} // verus!
