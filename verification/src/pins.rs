//! Pinned windows (picture-in-picture): a pinned window floats above
//! everything and follows you from desk to desk.
//!
//! Where a tiled window goes when pinned (a corner of the monitor, sized to
//! its aspect) is computed outside and handed in.
use vstd::prelude::*;

use crate::actions::{desk_step, lemma_desk_step};
use crate::geometry::Rect;
use crate::layout::{contains_id, filter_live, filter_out, first_index, keep_live, lemma_filter_take_step, without};
use crate::workspaces::{
    Workspace,
    Workspaces,
    entry_ids,
    entry_live,
    entry_neq,
    in_some_stack,
    lemma_first_pos,
    first_pos,
    lemma_pos_of,
    stacks_view,
};

verus! {

/// The pinning state kept beside the desks.
pub struct Pins {
    /// Pinned windows: floating, on every desk, above everything else.
    pub pinned: Vec<u32>,
    /// Pinned windows that were tiled before: unpinning tiles them again.
    pub from_tile: Vec<u32>,
    /// Carries a focused pinned window's focus across a desk switch.
    pub focus: Option<u32>,
}

/// Floating entries whose window is not in `pins`.
pub open spec fn entry_not_in(pins: Seq<u32>) -> spec_fn((u32, Rect)) -> bool {
    |e: (u32, Rect)| !pins.contains(e.0)
}

/// A live window appears at most once in `s`.
#[verifier::opaque]
pub open spec fn live_once(s: Seq<u32>, live: Seq<u32>) -> bool {
    forall|i: int, j: int|
        0 <= i < j < s.len() && #[trigger] s[i] == #[trigger] s[j] ==> !live.contains(s[i])
}

/// A pair of equal items in a filtered sequence comes from a pair of equal
/// items, in the same order, in the sequence.
proof fn lemma_filter_pair(s: Seq<u32>, p: spec_fn(u32) -> bool, i: int, j: int)
    requires
        0 <= i < j < s.filter(p).len(),
        s.filter(p)[i] == s.filter(p)[j],
    ensures
        exists|a: int, b: int|
            0 <= a < b < s.len() && #[trigger] s[a] == #[trigger] s[b] && s[a] == s.filter(p)[i],
    decreases s.len(),
{
    reveal_with_fuel(Seq::filter, 1);
    let rest = s.drop_last();
    let f = rest.filter(p);
    if p(s.last()) && j == f.len() {
        assert(s.filter(p) == f.push(s.last()));
        assert(f[i] == s.filter(p)[i]);
        assert(f.contains(f[i]));
        rest.lemma_filter_contains_rev(p, f[i]);
        let a = choose|a: int| 0 <= a < rest.len() && rest[a] == f[i];
        assert(s[a] == rest[a]);
        assert(s[s.len() - 1] == s.last());
        assert(0 <= a < s.len() - 1 && s[a] == s[s.len() - 1]);
    } else {
        if p(s.last()) {
            assert(s.filter(p) == f.push(s.last()));
        } else {
            assert(s.filter(p) == f);
        }
        assert(f[i] == s.filter(p)[i] && f[j] == s.filter(p)[j]);
        lemma_filter_pair(rest, p, i, j);
        let (a, b) = choose|a: int, b: int|
            0 <= a < b < rest.len() && #[trigger] rest[a] == #[trigger] rest[b] && rest[a] == f[i];
        assert(s[a] == rest[a] && s[b] == rest[b]);
    }
}

/// Filtering keeps a live window from appearing twice.
proof fn lemma_filter_live_once(s: Seq<u32>, p: spec_fn(u32) -> bool, live: Seq<u32>)
    requires
        live_once(s, live),
    ensures
        live_once(s.filter(p), live),
{
    reveal(live_once);
    let f = s.filter(p);
    assert forall|i: int, j: int| 0 <= i < j < f.len() && #[trigger] f[i] == #[trigger] f[j]
        implies !live.contains(f[i]) by {
        lemma_filter_pair(s, p, i, j);
    }
}

/// Removing an item keeps a live window from appearing twice.
proof fn lemma_remove_live_once(s: Seq<u32>, k: int, live: Seq<u32>)
    requires
        live_once(s, live),
        0 <= k < s.len(),
    ensures
        live_once(s.remove(k), live),
{
    reveal(live_once);
    let r = s.remove(k);
    assert forall|i: int, j: int| 0 <= i < j < r.len() && #[trigger] r[i] == #[trigger] r[j]
        implies !live.contains(r[i]) by {
        let a = if i < k { i } else { i + 1 };
        let b = if j < k { j } else { j + 1 };
        assert(r[i] == s[a] && r[j] == s[b]);
    }
}

/// `v` split into the entries whose window is in `pins` and the others,
/// both in order.
fn split_entries(v: &Vec<(u32, Rect)>, pins: &Vec<u32>) -> (r: (Vec<(u32, Rect)>, Vec<(u32, Rect)>))
    ensures
        r.0@ == v@.filter(entry_live(pins@)),
        r.1@ == v@.filter(entry_not_in(pins@)),
{
    let mut inside: Vec<(u32, Rect)> = Vec::new();
    let mut rest: Vec<(u32, Rect)> = Vec::new();
    let mut i: usize = 0;
    proof {
        reveal_with_fuel(Seq::filter, 1);
        assert(v@.take(0).filter(entry_live(pins@)) =~= Seq::<(u32, Rect)>::empty());
        assert(v@.take(0).filter(entry_not_in(pins@)) =~= Seq::<(u32, Rect)>::empty());
    }
    while i < v.len()
        invariant
            i <= v.len(),
            inside@ == v@.take(i as int).filter(entry_live(pins@)),
            rest@ == v@.take(i as int).filter(entry_not_in(pins@)),
        decreases v.len() - i,
    {
        proof {
            lemma_filter_take_step(v@, i as int, entry_live(pins@));
            lemma_filter_take_step(v@, i as int, entry_not_in(pins@));
        }
        if contains_id(pins, v[i].0) {
            inside.push(v[i]);
        } else {
            rest.push(v[i]);
        }
        i += 1;
    }
    proof {
        assert(v@.take(v.len() as int) =~= v@);
    }
    (inside, rest)
}

impl Pins {
    /// The pins as they stand while `live` are the live windows: a live
    /// window that came from the tiling is still pinned, and is listed as
    /// coming from the tiling once.
    pub open spec fn consistent(self, live: Seq<u32>) -> bool {
        &&& forall|x: u32|
            #![trigger self.from_tile@.contains(x)]
            live.contains(x) && self.from_tile@.contains(x) ==> self.pinned@.contains(x)
        &&& live_once(self.from_tile@, live)
    }

    pub fn new() -> (r: Pins)
        ensures
            r.pinned@ == Seq::<u32>::empty(),
            r.from_tile@ == Seq::<u32>::empty(),
            r.focus is None,
            forall|live: Seq<u32>| #[trigger] r.consistent(live),
    {
        let r = Pins { pinned: Vec::new(), from_tile: Vec::new(), focus: None };
        proof {
            reveal(live_once);
        }
        r
    }

    /// `w` is no longer pinned (it left for the shelf).
    pub fn forget(&mut self, w: u32)
        ensures
            final(self).pinned@ == without(old(self).pinned@, w),
            final(self).from_tile@ == without(old(self).from_tile@, w),
            final(self).focus == old(self).focus,
            forall|live: Seq<u32>|
                old(self).consistent(live) ==> #[trigger] final(self).consistent(live),
    {
        let ghost p0 = *self;
        self.pinned = filter_out(&self.pinned, w);
        self.from_tile = filter_out(&self.from_tile, w);
        proof {
            assert forall|live: Seq<u32>| p0.consistent(live) implies #[trigger] self.consistent(
                live,
            ) by {
                lemma_filter_live_once(p0.from_tile@, crate::layout::neq_pred(w), live);
                assert forall|x: u32|
                    live.contains(x) && self.from_tile@.contains(x) implies self.pinned@.contains(
                    x,
                ) by {
                    p0.from_tile@.lemma_filter_contains_rev(crate::layout::neq_pred(w), x);
                    assert(p0.from_tile@.contains(x));
                    let i = choose|i: int| 0 <= i < p0.pinned@.len() && p0.pinned@[i] == x;
                    p0.pinned@.lemma_filter_contains(crate::layout::neq_pred(w), i);
                }
            }
        }
    }

    /// The window that gives up its place on stage when a shelf card is
    /// clicked: the focused one, unless it is pinned.
    pub fn stage_out(&self, focused: Option<u32>) -> (r: Option<u32>)
        ensures
            r == match focused {
                Some(f) => if self.pinned@.contains(f) {
                    None
                } else {
                    Some(f)
                },
                None => None,
            },
    {
        match focused {
            Some(f) => if contains_id(&self.pinned, f) {
                None
            } else {
                Some(f)
            },
            None => None,
        }
    }
}

/// The parts of the active desk that lifting or dropping pins leaves alone.
pub open spec fn same_but_floating(a: Workspace, b: Workspace) -> bool {
    &&& b.tree == a.tree
    &&& b.stacks == a.stacks
    &&& b.fullscreen == a.fullscreen
    &&& b.id == a.id
    &&& b.mode == a.mode
    &&& b.output == a.output
}

impl Pins {
    /// What `unpin_for_switch` makes of the pins `old` and the desks `ows`,
    /// `out` being the floating entries lifted off.
    pub open spec fn lifted(
        old: Pins,
        new: Pins,
        ows: Workspaces,
        nws: Workspaces,
        live: Seq<u32>,
        out: Seq<(u32, Rect)>,
    ) -> bool {
        let a = ows.active_ws();
        let b = nws.active_ws();
        &&& new.pinned@ == keep_live(old.pinned@, live)
        &&& new.from_tile == old.from_tile
        &&& out == a.floating@.filter(entry_live(new.pinned@))
        &&& desk_step(ows, nws)
        &&& b.floating@ == a.floating@.filter(entry_not_in(new.pinned@))
        &&& new.focus == match a.focus_floating {
            Some(f) => if new.pinned@.contains(f) {
                Some(f)
            } else {
                None
            },
            None => None,
        }
        &&& b.focus_floating == if new.focus is Some {
            None
        } else {
            a.focus_floating
        }
        &&& same_but_floating(a, b)
    }

    /// What `repin(pins)` makes of the pins `old` and the desks `ows`.
    pub open spec fn dropped(old: Pins, new: Pins, ows: Workspaces, nws: Workspaces, pins: Seq<(u32, Rect)>) -> bool {
        let a = ows.active_ws();
        let b = nws.active_ws();
        &&& new.focus is None
        &&& new.pinned == old.pinned
        &&& new.from_tile == old.from_tile
        &&& desk_step(ows, nws)
        &&& b.floating@ == a.floating@ + pins
        &&& b.focus_floating == match old.focus {
            Some(f) => if entry_ids(b.floating@).contains(f) {
                Some(f)
            } else {
                a.focus_floating
            },
            None => a.focus_floating,
        }
        &&& same_but_floating(a, b)
    }
}

impl Pins {
    /// Before a desk switch: lift the pinned windows off the active desk (so
    /// they are not hidden with it) and hand them back with their places;
    /// `repin` drops them on the next desk. Dead windows are unpinned first,
    /// and a focused pin carries its focus across.
    pub fn unpin_for_switch(&mut self, ws: &mut Workspaces, live: &Vec<u32>) -> (r: Vec<(u32, Rect)>)
        requires
            old(ws).wf(),
        ensures
            Pins::lifted(*old(self), *final(self), *old(ws), *final(ws), live@, r@),
            old(self).consistent(live@) ==> final(self).consistent(live@),
    {
        self.pinned = filter_live(&self.pinned, live);
        proof {
            ws.lemma_wf();
            lemma_pos_of(ws.list_spec(), ws.active_spec());
        }
        let ghost pre = *ws;
        let a = ws.active();
        let (out, rest) = split_entries(&a.floating, &self.pinned);
        a.floating = rest;
        self.focus = match a.focus_floating {
            Some(f) => if contains_id(&self.pinned, f) {
                Some(f)
            } else {
                None
            },
            None => None,
        };
        if self.focus.is_some() {
            a.focus_floating = None;
        }
        proof {
            lemma_desk_step(pre, *ws);
            if old(self).consistent(live@) {
                let p0 = *old(self);
                assert forall|x: u32|
                    live@.contains(x) && self.from_tile@.contains(x) implies self.pinned@.contains(
                    x,
                ) by {
                    let i = choose|i: int| 0 <= i < p0.pinned@.len() && p0.pinned@[i] == x;
                    p0.pinned@.lemma_filter_contains(crate::layout::live_pred(live@), i);
                }
            }
        }
        out
    }

    /// After a desk switch: drop the lifted pins on the active desk, on top
    /// of its floating windows, and give focus back to the pin that had it.
    pub fn repin(&mut self, ws: &mut Workspaces, pins: Vec<(u32, Rect)>)
        requires
            old(ws).wf(),
        ensures
            Pins::dropped(*old(self), *final(self), *old(ws), *final(ws), pins@),
            forall|live: Seq<u32>|
                old(self).consistent(live) ==> #[trigger] final(self).consistent(live),
    {
        let focus = self.focus;
        self.focus = None;
        proof {
            ws.lemma_wf();
            lemma_pos_of(ws.list_spec(), ws.active_spec());
        }
        let ghost pre = *ws;
        let a = ws.active();
        let ghost f0 = a.floating@;
        let mut i: usize = 0;
        while i < pins.len()
            invariant
                i <= pins@.len(),
                a.floating@ == f0 + pins@.take(i as int),
                a.tree == pre.active_ws().tree,
                a.stacks == pre.active_ws().stacks,
                a.fullscreen == pre.active_ws().fullscreen,
                a.focus_floating == pre.active_ws().focus_floating,
                a.id == pre.active_ws().id,
                a.mode == pre.active_ws().mode,
                a.output == pre.active_ws().output,
            decreases pins.len() - i,
        {
            a.floating.push(pins[i]);
            proof {
                assert(pins@.take(i + 1) =~= pins@.take(i as int).push(pins@[i as int]));
            }
            i += 1;
        }
        proof {
            assert(pins@.take(pins@.len() as int) =~= pins@);
        }
        if let Some(f) = focus {
            if a.floats(f) {
                a.focus_floating = Some(f);
            }
        }
        proof {
            lemma_desk_step(pre, *ws);
        }
    }
}

/// The active desk `d` as `toggle_pin` finds it after taking `w` out of its
/// tab group (when it was in one).
pub open spec fn ungrouped(a: Workspace, d: Workspace, w: u32, live: Seq<u32>) -> bool {
    if in_some_stack(stacks_view(a.stacks@), w) {
        crate::chrome::detached(a, d, w, live)
    } else {
        d == a
    }
}

/// What `toggle_pin(corner)` makes of the pins `old` and the desks `ows`,
/// `r` telling whether the desks need laying out again.
pub open spec fn pin_toggled(
    old: Pins,
    new: Pins,
    ows: Workspaces,
    nws: Workspaces,
    live: Seq<u32>,
    corner: Option<Rect>,
    r: bool,
) -> bool {
    let a = ows.active_ws();
    let b = nws.active_ws();
    match a.focused_spec(live) {
        None => !r && new == old && nws == ows,
        Some(w) => if old.pinned@.contains(w) {
            &&& r
            &&& new.pinned@ == old.pinned@.remove(first_pos(old.pinned@, w))
            &&& new.focus == old.focus
            &&& if old.from_tile@.contains(w) {
                &&& new.from_tile@ == old.from_tile@.remove(first_pos(old.from_tile@, w))
                &&& desk_step(ows, nws)
                &&& b.floating@ == a.floating@.filter(entry_neq(w))
                &&& b.focus_floating is None
                &&& Workspace::tiled_in(
                    Workspace { floating: b.floating, focus_floating: None, ..a },
                    b,
                    w,
                )
            } else {
                new.from_tile == old.from_tile && nws == ows
            }
        } else if a.tree.windows_spec().contains(w) {
            match corner {
                None => !r && new == old && desk_step(ows, nws) && ungrouped(a, b, w, live),
                Some(rect) => {
                    &&& r
                    &&& new.pinned@ == old.pinned@.push(w)
                    &&& new.from_tile@ == old.from_tile@.push(w)
                    &&& new.focus == old.focus
                    &&& desk_step(ows, nws)
                    &&& exists|d: Workspace|
                        #[trigger] ungrouped(a, d, w, live) && b.tree.windows_spec() == without(
                            d.tree.windows_spec(),
                            w,
                        ) && b.floating@ == d.floating@.push((w, rect)) && b.focus_floating == Some(
                            w,
                        ) && b.stacks == d.stacks && b.fullscreen == d.fullscreen && b.mode
                            == d.mode
                }
            }
        } else if entry_ids(a.floating@).contains(w) {
            &&& r
            &&& new.pinned@ == old.pinned@.push(w)
            &&& new.from_tile == old.from_tile
            &&& new.focus == old.focus
            &&& nws == ows
        } else {
            !r && new == old && nws == ows
        },
    }
}

/// Where `w` first occurs in `s`, when it occurs there.
proof fn lemma_first_pos_in(s: Seq<u32>, w: u32)
    requires
        s.contains(w),
    ensures
        0 <= first_pos(s, w) < s.len(),
        s[first_pos(s, w)] == w,
{
    let i = choose|i: int| 0 <= i < s.len() && s[i] == w;
    lemma_first_below(s, w, i);
}

proof fn lemma_first_below(s: Seq<u32>, w: u32, i: int)
    requires
        0 <= i < s.len(),
        s[i] == w,
    ensures
        0 <= first_pos(s, w) < s.len(),
        s[first_pos(s, w)] == w,
    decreases i,
{
    if exists|j: int| 0 <= j < i && s[j] == w {
        let j = choose|j: int| 0 <= j < i && s[j] == w;
        lemma_first_below(s, w, j);
    } else {
        lemma_first_pos(s, w, i);
    }
}

/// Removing an item other than `x` keeps `x`.
proof fn lemma_remove_keeps(s: Seq<u32>, k: int, x: u32)
    requires
        0 <= k < s.len(),
        s.contains(x),
        s[k] != x,
    ensures
        s.remove(k).contains(x),
{
    let i = choose|i: int| 0 <= i < s.len() && s[i] == x;
    let i1 = if i < k { i } else { i - 1 };
    assert(s.remove(k)[i1] == x);
}

/// What is left after removing an item was there before; and once the
/// first `x` is gone, a live `x` listed once is gone for good.
proof fn lemma_remove_from(s: Seq<u32>, k: int, x: u32, live: Seq<u32>)
    requires
        0 <= k < s.len(),
        s.remove(k).contains(x),
    ensures
        s.contains(x),
        live_once(s, live) && s[k] == x ==> !live.contains(x),
{
    reveal(live_once);
    let j = choose|j: int| 0 <= j < s.remove(k).len() && s.remove(k)[j] == x;
    let j0 = if j < k { j } else { j + 1 };
    assert(s[j0] == x);
    if s[k] == x && live_once(s, live) {
        if j0 < k {
            assert(s[j0] == s[k]);
        } else {
            assert(s[k] == s[j0]);
        }
    }
}

/// Unpinning `w` keeps the pins consistent.
proof fn lemma_unpin_consistent(old: Pins, new: Pins, live: Seq<u32>, w: u32)
    requires
        old.consistent(live),
        old.pinned@.contains(w),
        new.pinned@ == old.pinned@.remove(first_pos(old.pinned@, w)),
        old.from_tile@.contains(w) ==> new.from_tile@ == old.from_tile@.remove(
            first_pos(old.from_tile@, w),
        ),
        !old.from_tile@.contains(w) ==> new.from_tile == old.from_tile,
    ensures
        new.consistent(live),
{
    let k = first_pos(old.pinned@, w);
    lemma_first_pos_in(old.pinned@, w);
    if old.from_tile@.contains(w) {
        let m = first_pos(old.from_tile@, w);
        lemma_first_pos_in(old.from_tile@, w);
        lemma_remove_live_once(old.from_tile@, m, live);
        assert forall|x: u32|
            live.contains(x) && new.from_tile@.contains(x) implies new.pinned@.contains(x) by {
            lemma_remove_from(old.from_tile@, m, x, live);
            assert(old.from_tile@.contains(x));
            lemma_remove_keeps(old.pinned@, k, x);
        }
    } else {
        assert forall|x: u32|
            live.contains(x) && new.from_tile@.contains(x) implies new.pinned@.contains(x) by {
            assert(old.from_tile@.contains(x));
            lemma_remove_keeps(old.pinned@, k, x);
        }
    }
}

/// Pinning `w`, which was not pinned, keeps the pins consistent, whether it
/// comes from the tiling or not.
proof fn lemma_pin_consistent(old: Pins, new: Pins, live: Seq<u32>, w: u32, tiled: bool)
    requires
        old.consistent(live),
        !old.pinned@.contains(w),
        new.pinned@ == old.pinned@.push(w),
        tiled ==> new.from_tile@ == old.from_tile@.push(w),
        !tiled ==> new.from_tile == old.from_tile,
    ensures
        new.consistent(live),
{
    let n = old.from_tile@.len() as int;
    assert(live.contains(w) ==> !old.from_tile@.contains(w));
    if tiled {
        reveal(live_once);
        assert forall|i: int, j: int|
            0 <= i < j < new.from_tile@.len() && #[trigger] new.from_tile@[i]
                == #[trigger] new.from_tile@[j] implies !live.contains(new.from_tile@[i]) by {
            if j == n {
                assert(old.from_tile@[i] == new.from_tile@[i]);
                assert(old.from_tile@.contains(w));
            } else {
                assert(old.from_tile@[i] == new.from_tile@[i] && old.from_tile@[j]
                    == new.from_tile@[j]);
            }
        }
    }
    assert forall|x: u32|
        live.contains(x) && new.from_tile@.contains(x) implies new.pinned@.contains(x) by {
        let j = choose|j: int| 0 <= j < new.from_tile@.len() && new.from_tile@[j] == x;
        if tiled && j == n {
            assert(new.pinned@[old.pinned@.len() as int] == x);
        } else {
            assert(old.from_tile@[j] == x);
            assert(old.from_tile@.contains(x));
            assert(old.pinned@.contains(x));
            let i = choose|i: int| 0 <= i < old.pinned@.len() && old.pinned@[i] == x;
            assert(new.pinned@[i] == x);
        }
    }
}

/// Toggling a pin keeps the pins consistent.
proof fn lemma_toggle_consistent(
    old: Pins,
    new: Pins,
    ows: Workspaces,
    nws: Workspaces,
    live: Seq<u32>,
    corner: Option<Rect>,
    r: bool,
)
    requires
        pin_toggled(old, new, ows, nws, live, corner, r),
        old.consistent(live),
    ensures
        new.consistent(live),
{
    let a = ows.active_ws();
    if let Some(w) = a.focused_spec(live) {
        if old.pinned@.contains(w) {
            lemma_unpin_consistent(old, new, live, w);
        } else if a.tree.windows_spec().contains(w) {
            if corner is Some {
                lemma_pin_consistent(old, new, live, w, true);
            }
        } else if entry_ids(a.floating@).contains(w) {
            lemma_pin_consistent(old, new, live, w, false);
        }
    }
}

/// Position of `w` in `v`, found by scanning.
fn index_of(v: &Vec<u32>, w: u32) -> (r: Option<usize>)
    ensures
        r is None <==> !v@.contains(w),
        r matches Some(i) ==> i < v@.len() && i == first_pos(v@, w),
{
    let r = first_index(v, w);
    proof {
        if let Some(i) = r {
            lemma_first_pos(v@, w, i as int);
        }
    }
    r
}

impl Pins {
    /// Pin or unpin the focused window. Pinning a floating window keeps it
    /// where it is; a tiled one leaves its tab group and the tiling for
    /// `corner` (no corner, no pin: only the group is left). Unpinning puts
    /// a window that came from the tiling back into it. True when the desks
    /// need laying out again.
    pub fn toggle_pin(&mut self, ws: &mut Workspaces, live: &Vec<u32>, corner: Option<Rect>) -> (r: bool)
        requires
            old(ws).wf(),
            old(ws).room(),
        ensures
            pin_toggled(*old(self), *final(self), *old(ws), *final(ws), live@, corner, r),
            old(self).consistent(live@) ==> final(self).consistent(live@),
    {
        let ghost p0 = *self;
        let ghost w0 = *ws;
        let r = self.toggle(ws, live, corner);
        proof {
            if p0.consistent(live@) {
                lemma_toggle_consistent(p0, *self, w0, *ws, live@, corner, r);
            }
        }
        r
    }

    fn toggle(&mut self, ws: &mut Workspaces, live: &Vec<u32>, corner: Option<Rect>) -> (r: bool)
        requires
            old(ws).wf(),
            old(ws).room(),
        ensures
            pin_toggled(*old(self), *final(self), *old(ws), *final(ws), live@, corner, r),
    {
        proof {
            ws.lemma_wf();
            ws.lemma_room();
            lemma_pos_of(ws.list_spec(), ws.active_spec());
        }
        let ghost pre = *ws;
        let w = match ws.active_ref().focused_window(live) {
            Some(w) => w,
            None => return false,
        };
        if let Some(i) = index_of(&self.pinned, w) {
            self.pinned.remove(i);
            if let Some(j) = index_of(&self.from_tile, w) {
                self.from_tile.remove(j);
                let a = ws.active();
                a.floating = crate::workspaces::drop_entry(&a.floating, w);
                a.focus_floating = None;
                let ghost mid = *a;
                a.insert_tiled(w);
                proof {
                    lemma_desk_step(pre, *ws);
                    assert(mid == Workspace { floating: ws.active_ws().floating, focus_floating: None, ..pre.active_ws() });
                }
            }
            return true;
        }
        if ws.active_ref().tree.contains(w) {
            let a = ws.active();
            a.detach_group_member(w, live);
            let ghost d = *a;
            match corner {
                None => {
                    proof {
                        lemma_desk_step(pre, *ws);
                    }
                    return false;
                },
                Some(rect) => {
                    proof {
                        d.tree.windows_spec().lemma_filter_len(crate::layout::neq_pred(w));
                    }
                    a.tree.remove(w);
                    a.floating.push((w, rect));
                    a.focus_floating = Some(w);
                    proof {
                        lemma_desk_step(pre, *ws);
                        assert(ungrouped(pre.active_ws(), d, w, live@));
                    }
                },
            }
            self.from_tile.push(w);
            self.pinned.push(w);
            return true;
        }
        if ws.active_ref().floats(w) {
            self.pinned.push(w);
            return true;
        }
        false
    }
}

/// Lifting the pins off a desk and dropping them straight back on it keeps
/// the same floating windows (the pins end up on top) and the same focus,
/// when the focused floating window is on the floating layer.
pub proof fn law_unpin_repin_keeps_desk(
    p0: Pins,
    p1: Pins,
    p2: Pins,
    w0: Workspaces,
    w1: Workspaces,
    w2: Workspaces,
    live: Seq<u32>,
    out: Seq<(u32, Rect)>,
)
    requires
        w0.wf(),
        w0.active_ws().focus_floating matches Some(f) ==> entry_ids(
            w0.active_ws().floating@,
        ).contains(f),
        Pins::lifted(p0, p1, w0, w1, live, out),
        Pins::dropped(p1, p2, w1, w2, out),
    ensures
        forall|e: (u32, Rect)| #[trigger]
            w2.active_ws().floating@.contains(e) <==> w0.active_ws().floating@.contains(e),
        w2.active_ws().focus_floating == w0.active_ws().focus_floating,
        w2.active_ws().tree == w0.active_ws().tree,
        w2.active_spec() == w0.active_spec(),
{
    let f0 = w0.active_ws().floating@;
    let pins = p1.pinned@;
    let inside = f0.filter(entry_live(pins));
    let rest = f0.filter(entry_not_in(pins));
    assert forall|e: (u32, Rect)| #[trigger]
        w2.active_ws().floating@.contains(e) <==> f0.contains(e) by {
        assert(w2.active_ws().floating@ == rest + inside);
        if f0.contains(e) {
            let i = choose|i: int| 0 <= i < f0.len() && f0[i] == e;
            if pins.contains(e.0) {
                f0.lemma_filter_contains(entry_live(pins), i);
                let j = choose|j: int| 0 <= j < inside.len() && inside[j] == e;
                assert((rest + inside)[rest.len() + j] == e);
            } else {
                f0.lemma_filter_contains(entry_not_in(pins), i);
                let j = choose|j: int| 0 <= j < rest.len() && rest[j] == e;
                assert((rest + inside)[j] == e);
            }
        }
        if (rest + inside).contains(e) {
            let j = choose|j: int| 0 <= j < (rest + inside).len() && (rest + inside)[j] == e;
            if j < rest.len() {
                assert(rest.contains(e));
                f0.lemma_filter_contains_rev(entry_not_in(pins), e);
            } else {
                assert(inside[j - rest.len()] == e);
                assert(inside.contains(e));
                f0.lemma_filter_contains_rev(entry_live(pins), e);
            }
        }
    }
    if let Some(f) = w0.active_ws().focus_floating {
        if pins.contains(f) {
            let i = choose|i: int| 0 <= i < f0.len() && entry_ids(f0)[i] == f;
            assert(f0[i].0 == f);
            f0.lemma_filter_contains(entry_live(pins), i);
            let j = choose|j: int| 0 <= j < inside.len() && inside[j] == f0[i];
            let b = w2.active_ws().floating@;
            assert(b[rest.len() + j] == f0[i]);
            assert(entry_ids(b)[rest.len() + j] == f);
        }
    }
}

/// Pinning a tiled window and then unpinning it puts it back in the tiling:
/// both calls ask for a new layout, the pin lists are as they were, the
/// same desk is active, and on it the window is tiled again, off the
/// floating layer, with no floating window focused.
pub proof fn law_pin_unpin_returns_to_tiling(
    p0: Pins,
    p1: Pins,
    p2: Pins,
    w0: Workspaces,
    w1: Workspaces,
    w2: Workspaces,
    live: Seq<u32>,
    rect: Rect,
    corner: Option<Rect>,
    r1: bool,
    r2: bool,
    w: u32,
)
    requires
        w0.active_ws().focused_spec(live) == Some(w),
        w0.active_ws().fullscreen is None,
        live.contains(w),
        w0.active_ws().tree.windows_spec().contains(w),
        p0.consistent(live),
        !p0.pinned@.contains(w),
        pin_toggled(p0, p1, w0, w1, live, Some(rect), r1),
        pin_toggled(p1, p2, w1, w2, live, corner, r2),
    ensures
        r1 && r2,
        p2.pinned@ == p0.pinned@,
        p2.from_tile@ == p0.from_tile@,
        w2.active_spec() == w0.active_spec(),
        w2.active_ws().tree.windows_spec().contains(w),
        !entry_ids(w2.active_ws().floating@).contains(w),
        w2.active_ws().focus_floating is None,
{
    let a = w0.active_ws();
    let b = w1.active_ws();
    assert(!p0.from_tile@.contains(w));
    let d = choose|d: Workspace|
        #[trigger] ungrouped(a, d, w, live) && b.tree.windows_spec() == without(
            d.tree.windows_spec(),
            w,
        ) && b.floating@ == d.floating@.push((w, rect)) && b.focus_floating == Some(w) && b.stacks
            == d.stacks && b.fullscreen == d.fullscreen && b.mode == d.mode;
    assert(!p0.pinned@.contains(w) && a.tree.windows_spec().contains(w));
    assert(ungrouped(a, d, w, live));
    if in_some_stack(stacks_view(a.stacks@), w) {
        reveal(crate::chrome::detached);
    }
    assert(d.fullscreen is None);
    assert(b.focused_spec(live) == Some(w));
    let n = p0.pinned@.len() as int;
    assert(p1.pinned@[n] == w);
    lemma_first_pos(p1.pinned@, w, n);
    assert(p1.pinned@.remove(n) =~= p0.pinned@);
    let m = p0.from_tile@.len() as int;
    assert(p1.from_tile@[m] == w);
    lemma_first_pos(p1.from_tile@, w, m);
    assert(p1.from_tile@.remove(m) =~= p0.from_tile@);
    let f2 = w2.active_ws().floating@;
    if entry_ids(f2).contains(w) {
        let i = choose|i: int| 0 <= i < entry_ids(f2).len() && entry_ids(f2)[i] == w;
        assert(f2.contains(f2[i]));
        b.floating@.lemma_filter_contains_rev(entry_neq(w), f2[i]);
    }
}

} // verus!
