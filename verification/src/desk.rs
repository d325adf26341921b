//! Decisions the compositor takes on the active desk: the tiling viewport
//! and gaps, floating geometry, directional focus and moves, and the
//! floating / fullscreen toggles.
//!
//! Geometry comes in as plain rectangles (where each window is mapped right
//! now); mapping, configuring and animating windows happen outside.
use vstd::prelude::*;

use crate::geometry::Rect;
use crate::input::Dir;
use crate::layout::{Direction, LayoutMode, contains_id};
use crate::workspaces::{Workspace, WINDOW_LIMIT, entry_ids};

verus! {

/// `x / 2` rounded toward zero, as Rust's integer division rounds.
pub open spec fn half(x: int) -> int {
    if x >= 0 {
        x / 2
    } else {
        -((-x) / 2)
    }
}

/// `x * 3 / 5` rounded toward zero.
pub open spec fn three_fifths(x: int) -> int {
    if x >= 0 {
        (x * 3) / 5
    } else {
        -((-x * 3) / 5)
    }
}

pub open spec fn fits_i32(x: int) -> bool {
    i32::MIN <= x <= i32::MAX
}

pub open spec fn max_int(a: int, b: int) -> int {
    if a >= b {
        a
    } else {
        b
    }
}

fn half_i32(x: i32) -> (r: i32)
    ensures
        r == half(x as int),
{
    let v = x as i64;
    if v >= 0 {
        (v / 2) as i32
    } else {
        (-((-v) / 2)) as i32
    }
}

/// The inset between the screen edge and the outer tiles: the edge margin
/// less the half gap every tile already keeps.
pub open spec fn edge_inset(margin: i32, gap: i32) -> int {
    margin - half(gap as int)
}

/// Width of the shelf column (the stage strip left of the tiles).
pub const SHELF_W: i32 = 208;

/// The intermediate values of the shelf column's computation fit in `i32`.
pub open spec fn shelf_fits(output: Rect, zone: Rect, margin: i32, gap: i32) -> bool {
    &&& fits_i32(output.x + zone.x)
    &&& fits_i32(output.y + zone.y)
    &&& fits_i32(output.x + zone.x + margin)
    &&& fits_i32(output.y + zone.y + margin)
    &&& fits_i32(SHELF_W - gap)
    &&& fits_i32(margin * 2)
    &&& fits_i32(zone.h - margin * 2)
}

/// The shelf column: at the left of the output's non-exclusive zone
/// (relative to the output), inside the outer margin, `SHELF_W` less the gap
/// wide and as tall as the zone less the margins (at least 1).
pub fn shelf_region(output: Rect, zone: Rect, margin: i32, gap: i32) -> (r: Rect)
    requires
        shelf_fits(output, zone, margin, gap),
    ensures
        r.x == output.x + zone.x + margin,
        r.y == output.y + zone.y + margin,
        r.w == SHELF_W - gap,
        r.h == max_int(zone.h - 2 * margin, 1),
{
    let h0 = zone.h - margin * 2;
    Rect {
        x: output.x + zone.x + margin,
        y: output.y + zone.y + margin,
        w: SHELF_W - gap,
        h: if h0 >= 1 {
            h0
        } else {
            1
        },
    }
}

/// The intermediate values of the viewport computation all fit in `i32`.
pub open spec fn viewport_fits(output: Rect, zone: Rect, margin: i32, gap: i32) -> bool {
    let m = edge_inset(margin, gap);
    &&& fits_i32(m)
    &&& fits_i32(output.x + zone.x)
    &&& fits_i32(output.y + zone.y)
    &&& fits_i32(output.x + zone.x + m)
    &&& fits_i32(output.y + zone.y + m)
    &&& fits_i32(m * 2)
    &&& fits_i32(zone.w - m * 2)
    &&& fits_i32(zone.h - m * 2)
}

/// The area tiles are laid out in: the output's non-exclusive zone (`zone`
/// is relative to the output), inset by the edge margin, at least 1x1.
pub fn tiling_viewport(output: Rect, zone: Rect, margin: i32, gap: i32) -> (r: Rect)
    requires
        viewport_fits(output, zone, margin, gap),
    ensures
        r.x == output.x + zone.x + edge_inset(margin, gap),
        r.y == output.y + zone.y + edge_inset(margin, gap),
        r.w == max_int(zone.w - 2 * edge_inset(margin, gap), 1),
        r.h == max_int(zone.h - 2 * edge_inset(margin, gap), 1),
{
    let m = margin - half_i32(gap);
    let x = output.x + zone.x + m;
    let y = output.y + zone.y + m;
    let w0 = zone.w - m * 2;
    let h0 = zone.h - m * 2;
    let w = if w0 >= 1 {
        w0
    } else {
        1
    };
    let h = if h0 >= 1 {
        h0
    } else {
        1
    };
    Rect { x, y, w, h }
}

/// The gap arithmetic of one tile fits in `i32`.
pub open spec fn inset_fits(r: Rect, gap: i32) -> bool {
    &&& fits_i32(r.x + half(gap as int))
    &&& fits_i32(r.y + half(gap as int))
    &&& fits_i32(r.w - gap)
    &&& fits_i32(r.h - gap)
}

/// `r` shrunk by half the gap on each side (at least 1x1).
pub open spec fn inset_spec(r: Rect, gap: i32) -> Rect {
    Rect {
        x: (r.x + half(gap as int)) as i32,
        y: (r.y + half(gap as int)) as i32,
        w: max_int(r.w - gap, 1) as i32,
        h: max_int(r.h - gap, 1) as i32,
    }
}

/// A tile shrunk by half the gap on each side, so neighbours end up `gap`
/// apart; never below 1x1.
pub fn gap_inset(r: Rect, gap: i32) -> (out: Rect)
    requires
        inset_fits(r, gap),
    ensures
        out == inset_spec(r, gap),
        out.x == r.x + half(gap as int),
        out.y == r.y + half(gap as int),
        out.w == max_int(r.w - gap, 1),
        out.h == max_int(r.h - gap, 1),
{
    let g = half_i32(gap);
    let w0 = r.w - gap;
    let h0 = r.h - gap;
    Rect {
        x: r.x + g,
        y: r.y + g,
        w: if w0 >= 1 {
            w0
        } else {
            1
        },
        h: if h0 >= 1 {
            h0
        } else {
            1
        },
    }
}

/// Width of a newly floated window: 3/5 of the viewport, at least 320.
pub open spec fn float_w(vp: Rect) -> int {
    max_int(three_fifths(vp.w as int), 320)
}

/// Height of a newly floated window: 3/5 of the viewport, at least 240.
pub open spec fn float_h(vp: Rect) -> int {
    max_int(three_fifths(vp.h as int), 240)
}

pub open spec fn float_fits(vp: Rect) -> bool {
    &&& vp.w >= 0
    &&& vp.h >= 0
    &&& vp.w * 3 <= i32::MAX
    &&& vp.h * 3 <= i32::MAX
    &&& fits_i32(vp.x + half(vp.w - float_w(vp)))
    &&& fits_i32(vp.y + half(vp.h - float_h(vp)))
}

/// Where a window popped out of the tiling goes: 3/5 of the viewport (at
/// least 320x240), centered in it.
pub fn float_rect(vp: Rect) -> (r: Rect)
    requires
        float_fits(vp),
    ensures
        r.w == float_w(vp),
        r.h == float_h(vp),
        r.x == vp.x + half(vp.w - float_w(vp)),
        r.y == vp.y + half(vp.h - float_h(vp)),
{
    let w0 = vp.w * 3 / 5;
    let h0 = vp.h * 3 / 5;
    let w = if w0 >= 320 {
        w0
    } else {
        320
    };
    let h = if h0 >= 240 {
        h0
    } else {
        240
    };
    let x = vp.x + half_i32(vp.w - w);
    let y = vp.y + half_i32(vp.h - h);
    Rect { x, y, w, h }
}

pub open spec fn center_fits(vp: Rect, r: Rect) -> bool {
    &&& fits_i32(vp.w - r.w)
    &&& fits_i32(vp.h - r.h)
    &&& fits_i32(vp.x + half(vp.w - r.w))
    &&& fits_i32(vp.y + half(vp.h - r.h))
}

/// `r` moved to the center of `vp`.
pub open spec fn centered_spec(vp: Rect, r: Rect) -> Rect {
    Rect { x: (vp.x + half(vp.w - r.w)) as i32, y: (vp.y + half(vp.h - r.h)) as i32, w: r.w, h: r.h }
}

/// `r` moved to the center of `vp`, keeping its size.
pub fn centered(vp: Rect, r: Rect) -> (out: Rect)
    requires
        center_fits(vp, r),
    ensures
        out == centered_spec(vp, r),
        out.x == vp.x + half(vp.w - r.w),
        out.y == vp.y + half(vp.h - r.h),
        out.w == r.w,
        out.h == r.h,
{
    Rect { x: vp.x + half_i32(vp.w - r.w), y: vp.y + half_i32(vp.h - r.h), w: r.w, h: r.h }
}

/// Step by which a floating window grows or shrinks.
pub const RESIZE_STEP: i32 = 48;

/// Smallest width a floating window is shrunk to.
pub const MIN_FLOAT_W: i32 = 160;

/// Smallest height a floating window is shrunk to.
pub const MIN_FLOAT_H: i32 = 120;

/// A floating window resized toward `dir`: right/down grow it by a step,
/// left/up shrink it by a step down to 160x120.
pub open spec fn resized_float(r: Rect, dir: Dir) -> Rect {
    match dir {
        Dir::Right => Rect { w: (r.w + RESIZE_STEP) as i32, ..r },
        Dir::Left => Rect { w: max_int(r.w - RESIZE_STEP, MIN_FLOAT_W as int) as i32, ..r },
        Dir::Down => Rect { h: (r.h + RESIZE_STEP) as i32, ..r },
        Dir::Up => Rect { h: max_int(r.h - RESIZE_STEP, MIN_FLOAT_H as int) as i32, ..r },
    }
}

pub fn resize_float(r: Rect, dir: Dir) -> (out: Rect)
    requires
        r.w + RESIZE_STEP <= i32::MAX,
        r.h + RESIZE_STEP <= i32::MAX,
        r.w - RESIZE_STEP >= i32::MIN,
        r.h - RESIZE_STEP >= i32::MIN,
    ensures
        out == resized_float(r, dir),
{
    match dir {
        Dir::Right => Rect { w: r.w + RESIZE_STEP, ..r },
        Dir::Left => {
            let w = r.w - RESIZE_STEP;
            Rect {
                w: if w >= MIN_FLOAT_W {
                    w
                } else {
                    MIN_FLOAT_W
                },
                ..r
            }
        },
        Dir::Down => Rect { h: r.h + RESIZE_STEP, ..r },
        Dir::Up => {
            let h = r.h - RESIZE_STEP;
            Rect {
                h: if h >= MIN_FLOAT_H {
                    h
                } else {
                    MIN_FLOAT_H
                },
                ..r
            }
        },
    }
}

/// Share of the split (in `RATIO_ONE` units) a tiled resize trades per
/// keypress: 0.04 of the parent.
pub const RESIZE_SHARE: i32 = 400;

/// The split axis and signed share a tiled resize toward `dir` applies:
/// right/down grow the focused tile, left/up shrink it.
pub fn tiled_resize(dir: Dir) -> (r: (Direction, i32))
    ensures
        r.0 == dir.axis_spec(),
        r.1 == if dir.grows() {
            RESIZE_SHARE as int
        } else {
            -RESIZE_SHARE
        },
{
    let delta = match dir {
        Dir::Right | Dir::Down => RESIZE_SHARE,
        Dir::Left | Dir::Up => -RESIZE_SHARE,
    };
    (dir.axis(), delta)
}

// ── directional focus ────────────────────────────────────────────────────────
pub open spec fn center_x(r: Rect) -> int {
    r.x + half(r.w as int)
}

pub open spec fn center_y(r: Rect) -> int {
    r.y + half(r.h as int)
}

pub open spec fn abs_int(a: int) -> int {
    if a < 0 {
        -a
    } else {
        a
    }
}

/// An offset `(dx, dy)` points mostly toward `dir` (ties go either way).
pub open spec fn in_dir(dx: int, dy: int, dir: Dir) -> bool {
    match dir {
        Dir::Left => dx < 0 && abs_int(dx) >= abs_int(dy),
        Dir::Right => dx > 0 && abs_int(dx) >= abs_int(dy),
        Dir::Up => dy < 0 && abs_int(dy) >= abs_int(dx),
        Dir::Down => dy > 0 && abs_int(dy) >= abs_int(dx),
    }
}

/// The nearest candidate (squared distance between centers, then window)
/// whose center lies toward `dir` from `from`'s; the first one wins ties.
/// `skip` (the focused window) is never a candidate.
pub open spec fn nearest_in_dir(from: Rect, cands: Seq<(u32, Rect)>, skip: u32, dir: Dir) -> Option<
    (int, u32),
>
    decreases cands.len(),
{
    if cands.len() == 0 {
        None
    } else {
        let prev = nearest_in_dir(from, cands.drop_last(), skip, dir);
        let (w, r) = cands.last();
        let dx = center_x(r) - center_x(from);
        let dy = center_y(r) - center_y(from);
        if w == skip || !in_dir(dx, dy, dir) {
            prev
        } else {
            let d = dx * dx + dy * dy;
            match prev {
                Some((bd, bw)) => if d < bd {
                    Some((d, w))
                } else {
                    prev
                },
                None => Some((d, w)),
            }
        }
    }
}

fn center_of(r: Rect) -> (c: (i128, i128))
    ensures
        c.0 == center_x(r),
        c.1 == center_y(r),
{
    (r.x as i128 + half_i32(r.w) as i128, r.y as i128 + half_i32(r.h) as i128)
}

/// Geometric nearest neighbour of the focused window (mapped at `from`)
/// toward `dir`, among the desk's mapped windows `cands`.
pub fn window_in_dir(from: Rect, focused: u32, cands: &Vec<(u32, Rect)>, dir: Dir) -> (r: Option<u32>)
    ensures
        r == match nearest_in_dir(from, cands@, focused, dir) {
            Some((_, w)) => Some(w),
            None => None,
        },
{
    let fc = center_of(from);
    let mut best: Option<(i128, u32)> = None;
    let mut i: usize = 0;
    while i < cands.len()
        invariant
            i <= cands@.len(),
            fc.0 == center_x(from),
            fc.1 == center_y(from),
            match nearest_in_dir(from, cands@.take(i as int), focused, dir) {
                Some((d, w)) => best matches Some((bd, bw)) && bd == d && bw == w,
                None => best is None,
            },
        decreases cands.len() - i,
    {
        let (w, rect) = cands[i];
        proof {
            let t = cands@.take(i + 1);
            assert(t.drop_last() =~= cands@.take(i as int));
            assert(t.last() == cands@[i as int]);
        }
        if w != focused {
            let c = center_of(rect);
            let dx = c.0 - fc.0;
            let dy = c.1 - fc.1;
            let adx = if dx < 0 {
                -dx
            } else {
                dx
            };
            let ady = if dy < 0 {
                -dy
            } else {
                dy
            };
            let toward = match dir {
                Dir::Left => dx < 0 && adx >= ady,
                Dir::Right => dx > 0 && adx >= ady,
                Dir::Up => dy < 0 && ady >= adx,
                Dir::Down => dy > 0 && ady >= adx,
            };
            if toward {
                proof {
                    assert(dx * dx <= 0x10_0000_0000_0000_0000) by (nonlinear_arith)
                        requires
                            -0x4_0000_0000 <= dx <= 0x4_0000_0000,
                    ;
                    assert(dy * dy <= 0x10_0000_0000_0000_0000) by (nonlinear_arith)
                        requires
                            -0x4_0000_0000 <= dy <= 0x4_0000_0000,
                    ;
                    assert(dx * dx >= 0 && dy * dy >= 0) by (nonlinear_arith);
                }
                let d = dx * dx + dy * dy;
                let better = match best {
                    Some((bd, _)) => d < bd,
                    None => true,
                };
                if better {
                    best = Some((d, w));
                }
            }
        }
        i += 1;
    }
    proof {
        assert(cands@.take(cands@.len() as int) =~= cands@);
    }
    match best {
        Some((_, w)) => Some(w),
        None => None,
    }
}

// ── desk operations ──────────────────────────────────────────────────────────
/// Position of the first floating entry of `w` (meaningful when there is one).
pub open spec fn entry_index(s: Seq<(u32, Rect)>, w: u32) -> int {
    choose|k: int| 0 <= k < s.len() && s[k].0 == w && forall|j: int| 0 <= j < k ==> (#[trigger] s[j]).0 != w
}

pub(crate) proof fn lemma_entry_index(s: Seq<(u32, Rect)>, w: u32, k: int)
    requires
        0 <= k < s.len(),
        s[k].0 == w,
        forall|j: int| 0 <= j < k ==> (#[trigger] s[j]).0 != w,
    ensures
        entry_index(s, w) == k,
{
    let c = entry_index(s, w);
    if c < k {
        assert(s[c].0 != w);
    }
    if k < c {
        assert(s[k].0 != w);
    }
}

impl Workspace {
    /// What `focus_target` makes of a desk.
    pub open spec fn focus_target_done(old: Workspace, new: Workspace, target: u32) -> bool {
        &&& new.wf()
        &&& entry_ids(old.floating@).contains(target) ==> {
            &&& new.focus_floating == Some(target)
            &&& new.tree == old.tree
        }
        &&& !entry_ids(old.floating@).contains(target) ==> {
            &&& new.focus_floating is None
            &&& new.tree.windows_spec() == old.tree.windows_spec()
            &&& old.tree.windows_spec().contains(target) ==> new.tree.focused_spec()
                == Some(target)
            &&& !old.tree.windows_spec().contains(target) ==> new.tree.focused_spec()
                == old.tree.focused_spec()
        }
        &&& new.floating == old.floating
        &&& new.stacks == old.stacks
        &&& new.fullscreen == old.fullscreen
        &&& new.id == old.id
        &&& new.mode == old.mode
        &&& new.output == old.output
    }

    /// Give focus to `target`: the floating layer's focus when it floats,
    /// else the tree's.
    pub fn focus_target(&mut self, target: u32)
        requires
            old(self).wf(),
        ensures
            Workspace::focus_target_done(*old(self), *final(self), target),
    {
        if self.floats(target) {
            self.focus_floating = Some(target);
        } else {
            self.focus_floating = None;
            self.tree.focus_window(target);
        }
    }

    /// What `swap_toward` makes of a desk.
    pub open spec fn swap_toward_done(old: Workspace, new: Workspace, focused: u32, target: u32) -> bool {
        &&& new.wf()
        &&& (entry_ids(old.floating@).contains(focused) || entry_ids(old.floating@).contains(target))
            ==> new == old
        &&& !(entry_ids(old.floating@).contains(focused) || entry_ids(old.floating@).contains(target))
            ==> {
            &&& new.tree.windows_spec() == crate::layout::swap_ids(
                old.tree.windows_spec(),
                focused,
                target,
            )
            &&& new.tree.windows_spec().contains(focused) ==> new.tree.focused_spec()
                == Some(focused)
        }
        &&& new.floating == old.floating
        &&& new.focus_floating == old.focus_floating
        &&& new.stacks == old.stacks
        &&& new.fullscreen == old.fullscreen
        &&& new.id == old.id
        &&& new.mode == old.mode
        &&& new.output == old.output
    }

    /// Swap the focused tile with `target` (the neighbour found toward a
    /// direction) and keep focus on the moved window. Floating windows take
    /// no part: nothing changes when either one floats.
    pub fn swap_toward(&mut self, focused: u32, target: u32)
        requires
            old(self).wf(),
        ensures
            Workspace::swap_toward_done(*old(self), *final(self), focused, target),
    {
        if self.floats(focused) || self.floats(target) {
            return;
        }
        self.tree.swap_windows(focused, target);
        self.tree.focus_window(focused);
    }

    /// Pop a tiled window into the floating layer at `rect`, focused there.
    /// Nothing happens unless it is tiled on this desk.
    pub fn float_window_at(&mut self, window: u32, rect: Rect)
        requires
            old(self).wf(),
        ensures
            final(self).wf(),
            !old(self).tree.windows_spec().contains(window) ==> *final(self) == *old(self),
            old(self).tree.windows_spec().contains(window) ==> {
                &&& final(self).tree.windows_spec() == crate::layout::without(
                    old(self).tree.windows_spec(),
                    window,
                )
                &&& final(self).floating@ == old(self).floating@.push((window, rect))
                &&& final(self).focus_floating == Some(window)
            },
            final(self).stacks == old(self).stacks,
            final(self).fullscreen == old(self).fullscreen,
            final(self).id == old(self).id,
            final(self).mode == old(self).mode,
            final(self).output == old(self).output,
    {
        if !self.tree.contains(window) {
            return;
        }
        proof {
            old(self).tree.windows_spec().lemma_filter_len(crate::layout::neq_pred(window));
        }
        self.tree.remove(window);
        self.floating.push((window, rect));
        self.focus_floating = Some(window);
    }

    /// What `toggle_floating` makes of a desk.
    pub open spec fn toggle_floating_done(old: Workspace, new: Workspace, window: u32, float_at: Rect) -> bool {
        &&& new.wf()
        &&& entry_ids(old.floating@).contains(window) ==> {
            &&& new.floating@ == old.floating@.remove(
                entry_index(old.floating@, window),
            )
            &&& new.focus_floating is None
            &&& new.tree.windows_spec().contains(window)
            &&& new.tree.focused_spec() == Some(window)
        }
        &&& !entry_ids(old.floating@).contains(window) && old.tree.windows_spec().contains(window)
            ==> {
            &&& new.tree.windows_spec() == crate::layout::without(
                old.tree.windows_spec(),
                window,
            )
            &&& new.floating@ == old.floating@.push((window, float_at))
            &&& new.focus_floating == Some(window)
        }
        &&& !entry_ids(old.floating@).contains(window) && !old.tree.windows_spec().contains(window)
            ==> new == old
        &&& new.stacks == old.stacks
        &&& new.fullscreen == old.fullscreen
        &&& new.id == old.id
        &&& new.mode == old.mode
        &&& new.output == old.output
    }

    /// Move `window` between the tiling tree and the floating layer: a
    /// floating window is tiled again (and loses floating focus); a tiled one
    /// pops out at `float_at`.
    pub fn toggle_floating(&mut self, window: u32, float_at: Rect)
        requires
            old(self).wf(),
            old(self).tree.windows_spec().len() + 1 <= WINDOW_LIMIT,
        ensures
            Workspace::toggle_floating_done(*old(self), *final(self), window, float_at),
    {
        let mut k: usize = 0;
        while k < self.floating.len() && self.floating[k].0 != window
            invariant
                k <= self.floating@.len(),
                forall|j: int| 0 <= j < k ==> (#[trigger] self.floating@[j]).0 != window,
            decreases self.floating.len() - k,
        {
            k += 1;
        }
        if k < self.floating.len() {
            proof {
                lemma_entry_index(self.floating@, window, k as int);
                assert(entry_ids(self.floating@)[k as int] == window);
            }
            self.floating.remove(k);
            self.focus_floating = None;
            self.insert_tiled(window);
        } else {
            proof {
                if entry_ids(self.floating@).contains(window) {
                    let j = choose|j: int|
                        0 <= j < entry_ids(self.floating@).len() && entry_ids(self.floating@)[j]
                            == window;
                    assert(self.floating@[j].0 == window);
                }
            }
            self.float_window_at(window, float_at);
        }
    }

    /// What `set_fullscreen` makes of a desk.
    pub open spec fn set_fullscreen_done(old: Workspace, new: Workspace, window: u32, on: bool) -> bool {
        &&& new.fullscreen == if on {
            Some(window)
        } else if old.fullscreen == Some(window) {
            None
        } else {
            old.fullscreen
        }
        &&& new.tree == old.tree
        &&& new.floating == old.floating
        &&& new.focus_floating == old.focus_floating
        &&& new.stacks == old.stacks
        &&& new.id == old.id
        &&& new.mode == old.mode
        &&& new.output == old.output
    }

    /// Fullscreen on or off for `window` (off only clears it if it is the
    /// fullscreen one).
    pub fn set_fullscreen(&mut self, window: u32, on: bool)
        ensures
            Workspace::set_fullscreen_done(*old(self), *final(self), window, on),
    {
        if on {
            self.fullscreen = Some(window);
        } else if self.fullscreen == Some(window) {
            self.fullscreen = None;
        }
    }

    /// Whether toggling fullscreen on `window` turns it on.
    pub fn fullscreen_toggle_on(&self, window: u32) -> (r: bool)
        ensures
            r == (self.fullscreen != Some(window)),
    {
        self.fullscreen != Some(window)
    }
}

/// What a desk looks like on screen: each tile's rectangle with the gaps
/// applied, the tile to raise (monocle shows the focused one on top), the
/// floating windows above the tiles, and a fullscreen window covering the
/// whole output.
pub struct Arrangement {
    pub tiles: Vec<(u32, Rect)>,
    pub raise: Option<u32>,
    pub floating: Vec<(u32, Rect)>,
    pub fullscreen: Option<(u32, Rect)>,
}

/// Every placed tile can take the gap inset.
pub open spec fn tiles_fit(placed: Seq<(u32, Rect)>, gap: i32) -> bool {
    forall|i: int| 0 <= i < placed.len() ==> inset_fits(#[trigger] placed[i].1, gap)
}

impl Workspace {
    /// Arrange this desk in viewport `vp` on an output covering `output`,
    /// with `gap` between tiles; `live` are the windows still alive (a dead
    /// fullscreen window covers nothing).
    pub fn arrange(&self, vp: Rect, output: Rect, gap: i32, live: &Vec<u32>) -> (r: Arrangement)
        requires
            self.wf(),
            vp.wf(),
            self.tree.windows_spec().len() <= i32::MAX,
            tiles_fit(self.tree.placement_spec(vp, self.mode), gap),
        ensures
            r.tiles@.len() == self.tree.placement_spec(vp, self.mode).len(),
            forall|i: int|
                0 <= i < r.tiles@.len() ==> (#[trigger] r.tiles@[i]).0 == self.tree.placement_spec(
                    vp,
                    self.mode,
                )[i].0 && r.tiles@[i].1 == inset_spec(self.tree.placement_spec(vp, self.mode)[i].1, gap),
            r.raise == if self.mode == LayoutMode::Monocle {
                self.tree.focused_spec()
            } else {
                None
            },
            r.floating@ == self.floating@,
            r.fullscreen == match self.fullscreen {
                Some(w) => if live@.contains(w) {
                    Some((w, output))
                } else {
                    None
                },
                None => None,
            },
    {
        let placed = self.tree.placements(vp, self.mode);
        let ghost ps = self.tree.placement_spec(vp, self.mode);
        let mut tiles: Vec<(u32, Rect)> = Vec::new();
        let mut i: usize = 0;
        while i < placed.len()
            invariant
                placed@ == ps,
                tiles_fit(ps, gap),
                i <= placed@.len(),
                tiles@.len() == i,
                forall|j: int|
                    0 <= j < i ==> (#[trigger] tiles@[j]).0 == ps[j].0 && tiles@[j].1 == inset_spec(
                        ps[j].1,
                        gap,
                    ),
            decreases placed.len() - i,
        {
            let (w, rect) = placed[i];
            proof {
                assert(inset_fits(ps[i as int].1, gap));
            }
            tiles.push((w, gap_inset(rect, gap)));
            i += 1;
        }
        let raise = match self.mode {
            LayoutMode::Monocle => self.tree.focused(),
            _ => None,
        };
        let mut floating: Vec<(u32, Rect)> = Vec::new();
        let mut k: usize = 0;
        while k < self.floating.len()
            invariant
                k <= self.floating@.len(),
                floating@ == self.floating@.take(k as int),
            decreases self.floating.len() - k,
        {
            floating.push(self.floating[k]);
            proof {
                assert(self.floating@.take(k + 1) =~= self.floating@.take(k as int).push(
                    self.floating@[k as int],
                ));
            }
            k += 1;
        }
        proof {
            assert(self.floating@.take(self.floating@.len() as int) =~= self.floating@);
        }
        let fullscreen = match self.fullscreen {
            Some(w) => if contains_id(live, w) {
                Some((w, output))
            } else {
                None
            },
            None => None,
        };
        Arrangement { tiles, raise, floating, fullscreen }
    }
}

/// Who gets the keyboard.
#[derive(Debug, Clone, Copy, PartialEq, Eq, Structural)]
pub enum FocusTarget {
    /// The lock screen owns the keyboard while the session is locked.
    Lock,
    /// A launcher or lock surface demanding exclusive keyboard input.
    Layer,
    /// The desk's focused window.
    Window(u32),
    /// Nothing.
    Nothing,
}

/// The keyboard focus: the lock screen while locked, else a layer surface
/// that demands it, else the active desk's focused window if it is alive.
pub fn keyboard_focus(locked: bool, exclusive_layer: bool, focused: Option<u32>, live: &Vec<u32>) -> (r:
    FocusTarget)
    ensures
        r == if locked {
            FocusTarget::Lock
        } else if exclusive_layer {
            FocusTarget::Layer
        } else {
            match focused {
                Some(w) => if live@.contains(w) {
                    FocusTarget::Window(w)
                } else {
                    FocusTarget::Nothing
                },
                None => FocusTarget::Nothing,
            }
        },
{
    if locked {
        FocusTarget::Lock
    } else if exclusive_layer {
        FocusTarget::Layer
    } else {
        match focused {
            Some(w) => if contains_id(live, w) {
                FocusTarget::Window(w)
            } else {
                FocusTarget::Nothing
            },
            None => FocusTarget::Nothing,
        }
    }
}

/// Smallest `c` with `c * c >= k`: the number of columns of the overview
/// grid for `k` panels.
pub open spec fn is_grid_cols(k: int, c: int) -> bool {
    0 <= c && c * c >= k && (c == 0 || (c - 1) * (c - 1) < k)
}

/// Columns and rows of a near-square grid of `k` panels: ceil(sqrt(k))
/// columns, then as many rows as the panels need.
pub fn grid_shape(k: u32) -> (r: (u32, u32))
    requires
        k <= 0x1000_0000,
    ensures
        is_grid_cols(k as int, r.0 as int),
        r.0 > 0 ==> r.1 == (k + r.0 - 1) / (r.0 as int),
        r.0 == 0 ==> r.1 == 0,
{
    let mut c: u32 = 0;
    let mut sq: u32 = 0;
    while sq < k
        invariant
            sq == c * c,
            c <= 0x4000,
            c == 0 || (c - 1) * (c - 1) < k,
            k <= 0x1000_0000,
        decreases 0x4000 - c,
    {
        proof {
            assert(c < 0x4000) by (nonlinear_arith)
                requires
                    c * c < k,
                    k <= 0x1000_0000,
                    c <= 0x4000,
            ;
            assert((c + 1) * (c + 1) == c * c + 2 * c + 1) by (nonlinear_arith);
        }
        sq = sq + 2 * c + 1;
        c += 1;
    }
    if c == 0 {
        (0, 0)
    } else {
        (c, (k + c - 1) / c)
    }
}

/// The size arithmetic of a floating resize fits in `i32`.
pub open spec fn float_resize_fits(r: Rect) -> bool {
    &&& r.w + RESIZE_STEP <= i32::MAX
    &&& r.h + RESIZE_STEP <= i32::MAX
    &&& r.w - RESIZE_STEP >= i32::MIN
    &&& r.h - RESIZE_STEP >= i32::MIN
}

/// Position of the first floating entry of `w`, found by scanning.
pub(crate) fn find_entry(v: &Vec<(u32, Rect)>, w: u32) -> (r: Option<usize>)
    ensures
        r is None <==> !entry_ids(v@).contains(w),
        r matches Some(k) ==> k < v@.len() && k == entry_index(v@, w),
{
    let mut k: usize = 0;
    while k < v.len() && v[k].0 != w
        invariant
            k <= v@.len(),
            forall|j: int| 0 <= j < k ==> (#[trigger] v@[j]).0 != w,
        decreases v.len() - k,
    {
        k += 1;
    }
    if k < v.len() {
        proof {
            lemma_entry_index(v@, w, k as int);
            assert(entry_ids(v@)[k as int] == w);
        }
        Some(k)
    } else {
        proof {
            if entry_ids(v@).contains(w) {
                let j = choose|j: int| 0 <= j < entry_ids(v@).len() && entry_ids(v@)[j] == w;
                assert(v@[j].0 == w);
            }
        }
        None
    }
}

impl Workspace {
    /// What `cycle_layout` makes of a desk.
    pub open spec fn cycle_layout_done(old: Workspace, new: Workspace, r: crate::layout::LayoutMode) -> bool {
        &&& r == old.mode.next_spec()
        &&& new.mode == r
        &&& new.tree == old.tree
        &&& new.floating == old.floating
        &&& new.focus_floating == old.focus_floating
        &&& new.fullscreen == old.fullscreen
        &&& new.stacks == old.stacks
        &&& new.id == old.id
        &&& new.output == old.output
    }

    /// Switch to the next layout mode; returns it (for the toast).
    pub fn cycle_layout(&mut self) -> (r: crate::layout::LayoutMode)
        ensures
            Workspace::cycle_layout_done(*old(self), *final(self), r),
    {
        let m = self.mode.next();
        self.mode = m;
        m
    }

    /// What `resize_toward` makes of a desk.
    pub open spec fn resize_toward_done(old: Workspace, new: Workspace, focused: Option<u32>, dir: Dir, r: bool) -> bool {
        &&& new.wf()
        &&& r == (focused is Some && entry_ids(old.floating@).contains(focused->0))
        &&& r ==> {
            let k = entry_index(old.floating@, focused->0);
            &&& new.floating@ == old.floating@.update(
                k,
                (focused->0, resized_float(old.floating@[k].1, dir)),
            )
            &&& new.tree == old.tree
        }
        &&& !r ==> {
            &&& new.floating == old.floating
            &&& new.tree.same_tree(
                old.tree.resized_spec(
                    dir.axis_spec(),
                    if dir.grows() {
                        RESIZE_SHARE as int
                    } else {
                        -RESIZE_SHARE
                    },
                ),
            )
            &&& new.tree.windows_spec() == old.tree.windows_spec()
        }
        &&& new.focus_floating == old.focus_floating
        &&& new.fullscreen == old.fullscreen
        &&& new.stacks == old.stacks
        &&& new.mode == old.mode
        &&& new.id == old.id
        &&& new.output == old.output
    }

    /// Resize toward `dir`: the focused window's own rectangle when it
    /// floats (true is returned), else the tiled split around the tree's
    /// focused leaf.
    pub fn resize_toward(&mut self, focused: Option<u32>, dir: Dir) -> (r: bool)
        requires
            old(self).wf(),
            focused is Some && entry_ids(old(self).floating@).contains(focused->0) ==> float_resize_fits(
                old(self).floating@[entry_index(old(self).floating@, focused->0)].1,
            ),
        ensures
            Workspace::resize_toward_done(*old(self), *final(self), focused, dir, r),
    {
        if let Some(f) = focused {
            if let Some(k) = find_entry(&self.floating, f) {
                let rect = self.floating[k].1;
                self.floating.set(k, (f, resize_float(rect, dir)));
                return true;
            }
        }
        let (axis, delta) = tiled_resize(dir);
        self.tree.resize_focused(axis, delta);
        false
    }

    /// What `center_floating` makes of a desk.
    pub open spec fn center_floating_done(old: Workspace, new: Workspace, w: u32, vp: Rect, r: bool) -> bool {
        &&& r == entry_ids(old.floating@).contains(w)
        &&& !r ==> new == old
        &&& r ==> {
            let k = entry_index(old.floating@, w);
            new.floating@ == old.floating@.update(
                k,
                (w, centered_spec(vp, old.floating@[k].1)),
            )
        }
        &&& new.tree == old.tree
        &&& new.focus_floating == old.focus_floating
        &&& new.fullscreen == old.fullscreen
        &&& new.stacks == old.stacks
        &&& new.mode == old.mode
        &&& new.id == old.id
        &&& new.output == old.output
    }

    /// Re-center the floating window `w` in `vp`, keeping its size; false
    /// (and nothing changes) when `w` is not floating here.
    pub fn center_floating(&mut self, w: u32, vp: Rect) -> (r: bool)
        requires
            entry_ids(old(self).floating@).contains(w) ==> center_fits(
                vp,
                old(self).floating@[entry_index(old(self).floating@, w)].1,
            ),
        ensures
            Workspace::center_floating_done(*old(self), *final(self), w, vp, r),
    {
        match find_entry(&self.floating, w) {
            Some(k) => {
                let rect = self.floating[k].1;
                self.floating.set(k, (w, centered(vp, rect)));
                true
            },
            None => false,
        }
    }
}

impl Workspace {
    /// What `focus_step(forward)` makes of a desk.
    pub open spec fn focus_step_done(old: Workspace, new: Workspace, forward: bool) -> bool {
        let n = old.tree.windows_spec().len() as int;
        let i = old.tree.focus_index();
        &&& new.wf()
        &&& new.focus_floating is None
        &&& new.tree.same_tree(old.tree)
        &&& new.tree.windows_spec() == old.tree.windows_spec()
        &&& new.tree.split_override() == old.tree.split_override()
        &&& n > 0 ==> new.tree.focus_index() == if forward {
            (i + 1) % n
        } else {
            (i + n - 1) % n
        }
        &&& new.floating == old.floating
        &&& new.stacks == old.stacks
        &&& new.fullscreen == old.fullscreen
        &&& new.id == old.id
        &&& new.mode == old.mode
        &&& new.output == old.output
    }

    /// Cycle focus through the tiles (next or previous, wrapping); the
    /// floating layer gives up focus.
    pub fn focus_step(&mut self, forward: bool)
        requires
            old(self).wf(),
        ensures
            Workspace::focus_step_done(*old(self), *final(self), forward),
    {
        self.focus_floating = None;
        if forward {
            self.tree.focus_next();
        } else {
            self.tree.focus_prev();
        }
    }

    /// What `set_split(dir)` makes of a desk.
    pub open spec fn set_split_done(old: Workspace, new: Workspace, dir: Direction) -> bool {
        &&& new.wf()
        &&& new.tree.split_override() == Some(dir)
        &&& new.tree.same_tree(old.tree)
        &&& new.tree.windows_spec() == old.tree.windows_spec()
        &&& new.tree.focus_index() == old.tree.focus_index()
        &&& new.floating == old.floating
        &&& new.focus_floating == old.focus_floating
        &&& new.stacks == old.stacks
        &&& new.fullscreen == old.fullscreen
        &&& new.id == old.id
        &&& new.mode == old.mode
        &&& new.output == old.output
    }

    /// Split the next new tile along `dir` (consumed by that insert).
    pub fn set_split(&mut self, dir: Direction)
        requires
            old(self).wf(),
        ensures
            Workspace::set_split_done(*old(self), *final(self), dir),
    {
        self.tree.set_next_split(Some(dir));
    }
}

/// Directional focus goes only toward `dir`, and to the nearest window there:
/// the window found is a candidate other than the focused one whose centre
/// is offset from the focused window's centre by `(dx, dy)` pointing mostly
/// toward `dir` (for `Down`: `dy > 0` and `|dy| >= |dx|`, likewise for the
/// others), at squared distance `d`; no candidate pointing that way is
/// closer; and when nothing is found, no candidate points that way.
pub proof fn law_window_in_dir_nearest_toward(from: Rect, cands: Seq<(u32, Rect)>, skip: u32, dir: Dir)
    ensures
        nearest_in_dir(from, cands, skip, dir) matches Some((d, w)) ==> exists|i: int|
            #![trigger cands[i]]
            {
                let dx = center_x(cands[i].1) - center_x(from);
                let dy = center_y(cands[i].1) - center_y(from);
                &&& 0 <= i < cands.len()
                &&& cands[i].0 == w
                &&& w != skip
                &&& d == dx * dx + dy * dy
                &&& match dir {
                    Dir::Left => dx < 0 && -dx >= dy && -dx >= -dy,
                    Dir::Right => dx > 0 && dx >= dy && dx >= -dy,
                    Dir::Up => dy < 0 && -dy >= dx && -dy >= -dx,
                    Dir::Down => dy > 0 && dy >= dx && dy >= -dx,
                }
            },
        forall|i: int|
            #![trigger cands[i]]
            {
                let dx = center_x(cands[i].1) - center_x(from);
                let dy = center_y(cands[i].1) - center_y(from);
                &&& 0 <= i < cands.len()
                &&& cands[i].0 != skip
                &&& match dir {
                    Dir::Left => dx < 0 && -dx >= dy && -dx >= -dy,
                    Dir::Right => dx > 0 && dx >= dy && dx >= -dy,
                    Dir::Up => dy < 0 && -dy >= dx && -dy >= -dx,
                    Dir::Down => dy > 0 && dy >= dx && dy >= -dx,
                }
            } ==> (nearest_in_dir(from, cands, skip, dir) matches Some((d, w)) && d <= {
                let dx = center_x(cands[i].1) - center_x(from);
                let dy = center_y(cands[i].1) - center_y(from);
                dx * dx + dy * dy
            }),
    decreases cands.len(),
{
    if cands.len() > 0 {
        let rest = cands.drop_last();
        law_window_in_dir_nearest_toward(from, rest, skip, dir);
        let n = cands.len() - 1;
        assert forall|i: int| 0 <= i < n implies cands[i] == #[trigger] rest[i] by {}
        assert forall|i: int|
            #![trigger cands[i]]
            {
                let dx = center_x(cands[i].1) - center_x(from);
                let dy = center_y(cands[i].1) - center_y(from);
                &&& 0 <= i < cands.len()
                &&& cands[i].0 != skip
                &&& match dir {
                    Dir::Left => dx < 0 && -dx >= dy && -dx >= -dy,
                    Dir::Right => dx > 0 && dx >= dy && dx >= -dy,
                    Dir::Up => dy < 0 && -dy >= dx && -dy >= -dx,
                    Dir::Down => dy > 0 && dy >= dx && dy >= -dx,
                }
            } implies (nearest_in_dir(from, cands, skip, dir) matches Some((d, w)) && d <= {
                let dx = center_x(cands[i].1) - center_x(from);
                let dy = center_y(cands[i].1) - center_y(from);
                dx * dx + dy * dy
            }) by {
            if i < n {
                assert(cands[i] == rest[i]);
            } else {
                assert(cands[i] == cands.last());
            }
        }
        if let Some((d, w)) = nearest_in_dir(from, cands, skip, dir) {
            if nearest_in_dir(from, rest, skip, dir) == Some((d, w)) {
                let i = choose|i: int|
                    #![trigger rest[i]]
                    {
                        let dx = center_x(rest[i].1) - center_x(from);
                        let dy = center_y(rest[i].1) - center_y(from);
                        &&& 0 <= i < rest.len()
                        &&& rest[i].0 == w
                        &&& w != skip
                        &&& d == dx * dx + dy * dy
                        &&& match dir {
                            Dir::Left => dx < 0 && -dx >= dy && -dx >= -dy,
                            Dir::Right => dx > 0 && dx >= dy && dx >= -dy,
                            Dir::Up => dy < 0 && -dy >= dx && -dy >= -dx,
                            Dir::Down => dy > 0 && dy >= dx && dy >= -dx,
                        }
                    };
                assert(cands[i] == rest[i]);
            } else {
                assert(cands[n] == cands.last());
            }
        }
    }
}

} // verus!
