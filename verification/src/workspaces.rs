//! Dynamic workspaces, one shown per monitor.
//!
//! Workspaces are created on demand (switch or move-to) and pruned when they
//! end up empty and not on screen. Each workspace owns a tiling tree plus a
//! floating layer; one window per workspace may be fullscreened (a display
//! override: it stays in its container).
//!
//! Every output shows exactly one workspace (`shown`), and each workspace
//! remembers the output it belongs to. `active` is the workspace on the
//! focused output, so every "active workspace" call means "where you are
//! working".
//!
//! Whether a window is still alive is the display server's knowledge; the
//! functions that drop dead windows take the ids of the live ones.
use vstd::prelude::*;

use crate::geometry::Rect;
use crate::desk::{entry_index, lemma_entry_index};
use crate::layout::{
    contains_id, filter_live, filter_out, first_index, keep_live,
    lemma_filter_take_step, live_pred, neq_pred, replace_ids, without, LayoutMode, Tree,
};

verus! {

/// Most tiled windows a workspace's tree holds (a machine limit: layouts work
/// in `i32` pixels).
pub const WINDOW_LIMIT: usize = 0x4000_0000;

/// A tabbed stack: several windows sharing one tile, only `active` shown. The
/// active member lives in the tree as a normal leaf; the rest sit here off the
/// tree, unmapped.
pub struct Stack {
    pub members: Vec<u32>,
    pub active: usize,
}

impl Stack {
    /// The member currently holding the tile.
    pub fn active_window(&self) -> (r: Option<u32>)
        ensures
            r == if self.active < self.members@.len() {
                Some(self.members@[self.active as int])
            } else {
                None
            },
    {
        if self.active < self.members.len() {
            Some(self.members[self.active])
        } else {
            None
        }
    }
}

/// Window ids of floating entries, in order.
pub open spec fn entry_ids(s: Seq<(u32, Rect)>) -> Seq<u32> {
    s.map_values(|e: (u32, Rect)| e.0)
}

pub open spec fn entry_neq(w: u32) -> spec_fn((u32, Rect)) -> bool {
    |e: (u32, Rect)| e.0 != w
}

pub open spec fn entry_live(live: Seq<u32>) -> spec_fn((u32, Rect)) -> bool {
    |e: (u32, Rect)| live.contains(e.0)
}

/// `(members, active)` of each stack.
pub open spec fn stacks_view(stacks: Seq<Stack>) -> Seq<(Seq<u32>, usize)> {
    stacks.map_values(|s: Stack| (s.members@, s.active))
}

/// Some stack has `w` among its members.
pub open spec fn in_some_stack(v: Seq<(Seq<u32>, usize)>, w: u32) -> bool {
    exists|i: int| 0 <= i < v.len() && (#[trigger] v[i]).0.contains(w)
}

/// Every stack with `w` dropped from its members.
pub open spec fn strip_member(v: Seq<(Seq<u32>, usize)>, w: u32) -> Seq<(Seq<u32>, usize)> {
    v.map_values(|e: (Seq<u32>, usize)| (without(e.0, w), e.1))
}

/// A stack after dropping dead members: its live members, and its active
/// index reset to the first when it fell off the end.
pub open spec fn pruned_stack(e: (Seq<u32>, usize), live: Seq<u32>) -> (Seq<u32>, usize) {
    let m = keep_live(e.0, live);
    (
        m,
        if e.1 < m.len() {
            e.1
        } else {
            0
        },
    )
}

/// The member that must hold the stack's tile after pruning, if any is left.
pub open spec fn slot_holder(e: (Seq<u32>, usize), live: Seq<u32>) -> Option<u32> {
    let p = pruned_stack(e, live);
    if p.0.len() > 0 {
        Some(p.0[p.1 as int])
    } else {
        None
    }
}

/// Stacks after pruning: dead members dropped, and stacks left with fewer
/// than two members dissolved (a one-member stack is just a normal window).
pub open spec fn pruned_stacks(v: Seq<(Seq<u32>, usize)>, live: Seq<u32>) -> Seq<(Seq<u32>, usize)>
    decreases v.len(),
{
    if v.len() == 0 {
        Seq::empty()
    } else {
        let p = pruned_stack(v[0], live);
        let rest = pruned_stacks(v.drop_first(), live);
        if p.0.len() >= 2 {
            seq![p] + rest
        } else {
            rest
        }
    }
}

/// Floating entries without `w`.
pub(crate) fn drop_entry(v: &Vec<(u32, Rect)>, w: u32) -> (r: Vec<(u32, Rect)>)
    ensures
        r@ == v@.filter(entry_neq(w)),
{
    let mut out: Vec<(u32, Rect)> = Vec::new();
    let mut i: usize = 0;
    proof {
        reveal_with_fuel(Seq::filter, 1);
        assert(v@.take(0).filter(entry_neq(w)) =~= Seq::<(u32, Rect)>::empty());
    }
    while i < v.len()
        invariant
            i <= v.len(),
            out@ == v@.take(i as int).filter(entry_neq(w)),
        decreases v.len() - i,
    {
        proof {
            lemma_filter_take_step(v@, i as int, entry_neq(w));
        }
        if v[i].0 != w {
            out.push(v[i]);
        }
        i += 1;
    }
    proof {
        assert(v@.take(v.len() as int) =~= v@);
    }
    out
}

/// Floating entries whose window is live.
fn keep_live_entries(v: &Vec<(u32, Rect)>, live: &Vec<u32>) -> (r: Vec<(u32, Rect)>)
    ensures
        r@ == v@.filter(entry_live(live@)),
{
    let mut out: Vec<(u32, Rect)> = Vec::new();
    let mut i: usize = 0;
    proof {
        reveal_with_fuel(Seq::filter, 1);
        assert(v@.take(0).filter(entry_live(live@)) =~= Seq::<(u32, Rect)>::empty());
    }
    while i < v.len()
        invariant
            i <= v.len(),
            out@ == v@.take(i as int).filter(entry_live(live@)),
        decreases v.len() - i,
    {
        proof {
            lemma_filter_take_step(v@, i as int, entry_live(live@));
        }
        if contains_id(live, v[i].0) {
            out.push(v[i]);
        }
        i += 1;
    }
    proof {
        assert(v@.take(v.len() as int) =~= v@);
    }
    out
}

/// Whether some floating entry holds `w`.
fn entries_contain(v: &Vec<(u32, Rect)>, w: u32) -> (r: bool)
    ensures
        r == entry_ids(v@).contains(w),
{
    let mut i: usize = 0;
    while i < v.len()
        invariant
            i <= v.len(),
            forall|j: int| 0 <= j < i ==> v@[j].0 != w,
        decreases v.len() - i,
    {
        if v[i].0 == w {
            proof {
                assert(entry_ids(v@)[i as int] == w);
            }
            return true;
        }
        i += 1;
    }
    proof {
        if entry_ids(v@).contains(w) {
            let j = choose|j: int| 0 <= j < entry_ids(v@).len() && entry_ids(v@)[j] == w;
            assert(v@[j].0 == w);
        }
    }
    false
}

proof fn lemma_filter_entries_ids_without(s: Seq<(u32, Rect)>, w: u32)
    ensures
        !entry_ids(s.filter(entry_neq(w))).contains(w),
        forall|x: u32| entry_ids(s.filter(entry_neq(w))).contains(x) ==> entry_ids(s).contains(x),
{
    let f = s.filter(entry_neq(w));
    assert forall|x: u32| entry_ids(f).contains(x) implies x != w && entry_ids(s).contains(x) by {
        let j = choose|j: int| 0 <= j < entry_ids(f).len() && entry_ids(f)[j] == x;
        s.lemma_filter_pred(entry_neq(w), j);
        s.lemma_filter_contains_rev(entry_neq(w), f[j]);
        let k = choose|k: int| 0 <= k < s.len() && s[k] == f[j];
        assert(entry_ids(s)[k] == x);
    }
}


proof fn lemma_insert_contains(s: Seq<u32>, k: int, w: u32)
    requires
        0 <= k <= s.len(),
    ensures
        forall|x: u32| s.insert(k, w).contains(x) <==> (s.contains(x) || x == w),
{
    s.insert_ensures(k, w);
    assert forall|x: u32| s.insert(k, w).contains(x) <==> (s.contains(x) || x == w) by {
        if s.contains(x) {
            let j = choose|j: int| 0 <= j < s.len() && s[j] == x;
            if j < k {
                assert(s.insert(k, w)[j] == x);
            } else {
                assert(s.insert(k, w)[j + 1] == x);
            }
        }
        if x == w {
            assert(s.insert(k, w)[k] == w);
        }
        if s.insert(k, w).contains(x) {
            let j = choose|j: int| 0 <= j < s.insert(k, w).len() && s.insert(k, w)[j] == x;
            if j < k {
                assert(s[j] == x);
            } else if j > k {
                assert(s[j - 1] == x);
            }
        }
    }
}

/// The members of a pruned stack are live members of the original one.
proof fn lemma_pruned_members(e: (Seq<u32>, usize), live: Seq<u32>, x: u32)
    ensures
        pruned_stack(e, live).0.contains(x) ==> e.0.contains(x) && live.contains(x),
        slot_holder(e, live) == Some(x) ==> e.0.contains(x) && live.contains(x),
{
    let m = keep_live(e.0, live);
    if m.contains(x) {
        let j = choose|j: int| 0 <= j < m.len() && m[j] == x;
        e.0.lemma_filter_pred(live_pred(live), j);
        e.0.lemma_filter_contains_rev(live_pred(live), x);
    }
    if slot_holder(e, live) == Some(x) {
        let p = pruned_stack(e, live);
        assert(m[p.1 as int] == x);
        assert(m.contains(x));
        e.0.lemma_filter_pred(live_pred(live), p.1 as int);
        e.0.lemma_filter_contains_rev(live_pred(live), x);
    }
}

/// No element of `without(s, w)` is `w`, and each is in `s`.
proof fn lemma_without_contains(s: Seq<u32>, w: u32, x: u32)
    ensures
        without(s, w).contains(x) <==> (s.contains(x) && x != w),
{
    if without(s, w).contains(x) {
        let j = choose|j: int| 0 <= j < without(s, w).len() && without(s, w)[j] == x;
        s.lemma_filter_pred(neq_pred(w), j);
        s.lemma_filter_contains_rev(neq_pred(w), x);
    }
    if s.contains(x) && x != w {
        let j = choose|j: int| 0 <= j < s.len() && s[j] == x;
        s.lemma_filter_contains(neq_pred(w), j);
    }
}

/// Every member of a stack left by pruning belongs to some original stack.
proof fn lemma_pruned_stacks_members(v: Seq<(Seq<u32>, usize)>, live: Seq<u32>, x: u32)
    ensures
        in_some_stack(pruned_stacks(v, live), x) ==> in_some_stack(v, x) && live.contains(x),
    decreases v.len(),
{
    if v.len() > 0 {
        lemma_pruned_stacks_members(v.drop_first(), live, x);
        lemma_pruned_members(v[0], live, x);
        let p = pruned_stack(v[0], live);
        let rest = pruned_stacks(v.drop_first(), live);
        if in_some_stack(pruned_stacks(v, live), x) {
            let i = choose|i: int|
                0 <= i < pruned_stacks(v, live).len() && (#[trigger] pruned_stacks(v, live)[i]).0.contains(
                    x,
                );
            if p.0.len() >= 2 {
                if i == 0 {
                    assert(v[0].0.contains(x));
                } else {
                    assert(pruned_stacks(v, live)[i] == rest[i - 1]);
                    assert(in_some_stack(rest, x));
                    let k = choose|k: int|
                        0 <= k < v.drop_first().len() && (#[trigger] v.drop_first()[k]).0.contains(x);
                    assert(v[k + 1] == v.drop_first()[k]);
                }
            } else {
                assert(in_some_stack(rest, x));
                let k = choose|k: int|
                    0 <= k < v.drop_first().len() && (#[trigger] v.drop_first()[k]).0.contains(x);
                assert(v[k + 1] == v.drop_first()[k]);
            }
        }
    }
}

proof fn lemma_pruned_stacks_step(v: Seq<(Seq<u32>, usize)>, i: int, live: Seq<u32>)
    requires
        0 <= i < v.len(),
    ensures
        pruned_stacks(v.skip(i), live) == if pruned_stack(v[i], live).0.len() >= 2 {
            seq![pruned_stack(v[i], live)] + pruned_stacks(v.skip(i + 1), live)
        } else {
            pruned_stacks(v.skip(i + 1), live)
        },
{
    assert(v.skip(i)[0] == v[i]);
    assert(v.skip(i).drop_first() =~= v.skip(i + 1));
}

/// Every stack has at least two members and its shown member is one of them.
pub open spec fn stacks_ok(stacks: Seq<Stack>) -> bool {
    forall|i: int|
        0 <= i < stacks.len() ==> (#[trigger] stacks[i]).members@.len() >= 2 && stacks[i].active
            < stacks[i].members@.len()
}

proof fn lemma_pruned_ok(v: Seq<(Seq<u32>, usize)>, live: Seq<u32>)
    ensures
        forall|i: int|
            0 <= i < pruned_stacks(v, live).len() ==> (#[trigger] pruned_stacks(v, live)[i]).0.len() >= 2
                && pruned_stacks(v, live)[i].1 < pruned_stacks(v, live)[i].0.len(),
    decreases v.len(),
{
    if v.len() > 0 {
        lemma_pruned_ok(v.drop_first(), live);
        let p = pruned_stack(v[0], live);
        let rest = pruned_stacks(v.drop_first(), live);
        if p.0.len() >= 2 {
            assert forall|i: int| 0 <= i < pruned_stacks(v, live).len() implies (
            #[trigger] pruned_stacks(v, live)[i]).0.len() >= 2 && pruned_stacks(v, live)[i].1
                < pruned_stacks(v, live)[i].0.len() by {
                if i > 0 {
                    assert(pruned_stacks(v, live)[i] == rest[i - 1]);
                }
            }
        }
    }
}

/// Stacks whose view is a pruned one are in order.
pub(crate) proof fn lemma_stacks_ok(stacks: Seq<Stack>, v: Seq<(Seq<u32>, usize)>, live: Seq<u32>)
    requires
        stacks_view(stacks) == pruned_stacks(v, live),
    ensures
        stacks_ok(stacks),
{
    lemma_pruned_ok(v, live);
    assert forall|i: int| 0 <= i < stacks.len() implies (#[trigger] stacks[i]).members@.len() >= 2
        && stacks[i].active < stacks[i].members@.len() by {
        assert(stacks_view(stacks)[i] == (stacks[i].members@, stacks[i].active));
    }
}

/// Position of the first `w` in `s` (meaningful when `s` holds it).
pub open spec fn first_pos(s: Seq<u32>, w: u32) -> int {
    choose|k: int| 0 <= k < s.len() && s[k] == w && forall|j: int| 0 <= j < k ==> s[j] != w
}

pub proof fn lemma_first_pos(s: Seq<u32>, w: u32, k: int)
    requires
        0 <= k < s.len(),
        s[k] == w,
        forall|j: int| 0 <= j < k ==> s[j] != w,
    ensures
        first_pos(s, w) == k,
{
    let c = first_pos(s, w);
    if c < k {
        assert(s[c] != w);
    }
    if k < c {
        assert(s[k] != w);
    }
}

/// Pruning never adds stacks.
pub proof fn lemma_pruned_stacks_len(v: Seq<(Seq<u32>, usize)>, live: Seq<u32>)
    ensures
        pruned_stacks(v, live).len() <= v.len(),
    decreases v.len(),
{
    if v.len() > 0 {
        lemma_pruned_stacks_len(v.drop_first(), live);
    }
}

pub struct Workspace {
    pub id: u32,
    pub tree: Tree,
    /// Floating windows with their logical geometry, bottom to top.
    pub floating: Vec<(u32, Rect)>,
    /// If set, this floating window has focus instead of the tree's leaf.
    pub focus_floating: Option<u32>,
    /// Display override: this window covers the whole output.
    pub fullscreen: Option<u32>,
    /// How the tiled windows are arranged.
    pub mode: LayoutMode,
    /// Tabbed stacks on this desk (each occupies one tree leaf).
    pub stacks: Vec<Stack>,
    /// Output (connector name) this desk lives on. Empty = not yet placed.
    pub output: String,
}

impl Workspace {
    pub open spec fn wf(self) -> bool {
        &&& self.tree.wf()
        &&& self.tree.windows_spec().len() <= WINDOW_LIMIT
        &&& stacks_ok(self.stacks@)
    }

    /// Tiled then floating windows.
    pub open spec fn windows_spec(self) -> Seq<u32> {
        self.tree.windows_spec() + entry_ids(self.floating@)
    }

    pub open spec fn contains_spec(self, w: u32) -> bool {
        self.windows_spec().contains(w) || in_some_stack(stacks_view(self.stacks@), w)
    }

    pub open spec fn is_empty_spec(self) -> bool {
        &&& self.tree.windows_spec().len() == 0
        &&& self.floating@.len() == 0
        &&& self.stacks@.len() == 0
    }

    /// The window that should hold keyboard focus: a live fullscreen window,
    /// else a live focused floating window, else the tree's focused leaf.
    pub open spec fn focused_spec(self, live: Seq<u32>) -> Option<u32> {
        if self.fullscreen is Some && live.contains(self.fullscreen->0) {
            self.fullscreen
        } else if self.focus_floating is Some && live.contains(self.focus_floating->0) {
            self.focus_floating
        } else {
            self.tree.focused_spec()
        }
    }

    /// A fresh desk on `output`, tiling, with nothing on it.
    pub fn new(id: u32, output: String) -> (r: Workspace)
        ensures
            r.wf(),
            r.id == id,
            r.output@ == output@,
            r.is_empty_spec(),
            r.tree.split_override() is None,
            r.focus_floating is None,
            r.fullscreen is None,
            r.mode == LayoutMode::Tiling,
    {
        Workspace {
            id,
            output,
            tree: Tree::new(),
            floating: Vec::new(),
            focus_floating: None,
            fullscreen: None,
            mode: LayoutMode::Tiling,
            stacks: Vec::new(),
        }
    }

    /// Index of the stack holding `window` (active or hidden member), if any.
    pub fn stack_of(&self, window: u32) -> (r: Option<usize>)
        ensures
            r is None <==> !in_some_stack(stacks_view(self.stacks@), window),
            r matches Some(i) ==> {
                &&& i < self.stacks@.len()
                &&& self.stacks@[i as int].members@.contains(window)
                &&& forall|j: int|
                    0 <= j < i ==> !(#[trigger] self.stacks@[j]).members@.contains(window)
            },
    {
        let mut i: usize = 0;
        while i < self.stacks.len()
            invariant
                i <= self.stacks@.len(),
                forall|j: int| 0 <= j < i ==> !(#[trigger] self.stacks@[j]).members@.contains(window),
            decreases self.stacks.len() - i,
        {
            if contains_id(&self.stacks[i].members, window) {
                proof {
                    assert(stacks_view(self.stacks@)[i as int].0.contains(window));
                }
                return Some(i);
            }
            i += 1;
        }
        proof {
            if in_some_stack(stacks_view(self.stacks@), window) {
                let j = choose|j: int|
                    0 <= j < stacks_view(self.stacks@).len() && (#[trigger] stacks_view(
                        self.stacks@,
                    )[j]).0.contains(window);
                assert(self.stacks@[j].members@.contains(window));
            }
        }
        None
    }

    /// Tiled windows in tree order, then floating ones bottom to top.
    pub fn windows(&self) -> (r: Vec<u32>)
        ensures
            r@ == self.windows_spec(),
    {
        let mut out = self.tree.windows();
        let ghost t = out@;
        let mut i: usize = 0;
        while i < self.floating.len()
            invariant
                i <= self.floating@.len(),
                t == self.tree.windows_spec(),
                out@ == t + entry_ids(self.floating@).take(i as int),
            decreases self.floating.len() - i,
        {
            out.push(self.floating[i].0);
            proof {
                assert(entry_ids(self.floating@).take(i + 1) =~= entry_ids(self.floating@).take(
                    i as int,
                ).push(self.floating@[i as int].0));
            }
            i += 1;
        }
        proof {
            assert(entry_ids(self.floating@).take(i as int) =~= entry_ids(self.floating@));
        }
        out
    }

    pub fn is_empty(&self) -> (r: bool)
        requires
            self.wf(),
        ensures
            r == self.is_empty_spec(),
    {
        self.tree.is_empty() && self.floating.len() == 0 && self.stacks.len() == 0
    }

    /// The window that should hold keyboard focus on this desk. A live
    /// fullscreen window (a game, say) owns the keyboard; otherwise a live
    /// focused floating window; otherwise the tree's focused leaf.
    pub fn focused_window(&self, live: &Vec<u32>) -> (r: Option<u32>)
        requires
            self.wf(),
        ensures
            r == self.focused_spec(live@),
    {
        if let Some(w) = self.fullscreen {
            if contains_id(live, w) {
                return Some(w);
            }
        }
        if let Some(w) = self.focus_floating {
            if contains_id(live, w) {
                return Some(w);
            }
        }
        self.tree.focused()
    }



    /// Drop `window` from every stack's members.
    fn strip_stacks(&mut self, window: u32)
        ensures
            stacks_view(final(self).stacks@) == strip_member(stacks_view(old(self).stacks@), window),
            final(self).tree == old(self).tree,
            final(self).floating@ == old(self).floating@,
            final(self).id == old(self).id,
            final(self).output@ == old(self).output@,
            final(self).mode == old(self).mode,
            final(self).focus_floating == old(self).focus_floating,
            final(self).fullscreen == old(self).fullscreen,
    {
        let mut old_stacks: Vec<Stack> = Vec::new();
        std::mem::swap(&mut old_stacks, &mut self.stacks);
        let ghost v0 = stacks_view(old_stacks@);
        let mut i: usize = 0;
        while i < old_stacks.len()
            invariant
                i <= old_stacks@.len(),
                v0 == stacks_view(old_stacks@),
                v0 == stacks_view(old(self).stacks@),
                stacks_view(self.stacks@) == strip_member(v0, window).take(i as int),
                self.tree == old(self).tree,
                self.floating@ == old(self).floating@,
                self.id == old(self).id,
                self.output@ == old(self).output@,
                self.mode == old(self).mode,
                self.focus_floating == old(self).focus_floating,
                self.fullscreen == old(self).fullscreen,
            decreases old_stacks.len() - i,
        {
            let members = filter_out(&old_stacks[i].members, window);
            let ghost sv = stacks_view(self.stacks@);
            self.stacks.push(Stack { members, active: old_stacks[i].active });
            proof {
                assert(stacks_view(self.stacks@) =~= sv.push(
                    (without(old_stacks@[i as int].members@, window), old_stacks@[i as int].active),
                ));
                assert(strip_member(v0, window)[i as int] == (
                    without(old_stacks@[i as int].members@, window),
                    old_stacks@[i as int].active,
                ));
                assert(stacks_view(self.stacks@) =~= strip_member(v0, window).take(i + 1));
            }
            i += 1;
        }
        proof {
            assert(strip_member(v0, window).take(i as int) =~= strip_member(v0, window));
        }
    }

    /// What `remove(window)` makes of a desk `old`.
    pub open spec fn removed_from(old: Workspace, new: Workspace, window: u32, live: Seq<u32>) -> bool {
        &&& new.wf()
        &&& !new.contains_spec(window)
        &&& new.floating@ == old.floating@.filter(entry_neq(window))
        &&& stacks_view(new.stacks@) == pruned_stacks(
            strip_member(stacks_view(old.stacks@), window),
            live,
        )
        &&& forall|x: u32|
            old.tree.windows_spec().contains(x) && x != window ==> new.tree.windows_spec().contains(x)
        &&& forall|x: u32|
            new.tree.windows_spec().contains(x) ==> x != window && (old.tree.windows_spec().contains(x)
                || in_some_stack(stacks_view(old.stacks@), x))
        &&& new.focus_floating == if old.focus_floating == Some(window) {
            None
        } else {
            old.focus_floating
        }
        &&& new.fullscreen == if old.fullscreen == Some(window) {
            None
        } else {
            old.fullscreen
        }
        &&& new.id == old.id
        &&& new.output@ == old.output@
        &&& new.mode == old.mode
        &&& new.tree.windows_spec().len() <= old.tree.windows_spec().len() + old.stacks@.len()
    }

    /// Remove `window` from this desk: its tile, its floating entry, its stack
    /// membership, and the focus/fullscreen marks that named it. Stacks are
    /// then pruned so a stack whose active member left hands its tile on.
    pub fn remove(&mut self, window: u32, live: &Vec<u32>)
        requires
            old(self).wf(),
            old(self).tree.windows_spec().len() + old(self).stacks@.len() <= WINDOW_LIMIT,
        ensures
            Workspace::removed_from(*old(self), *final(self), window, live@),
    {
        self.tree.remove(window);
        proof {
            assert forall|x: u32| #[trigger] self.tree.windows_spec().contains(x) <==> (old(self).tree.windows_spec().contains(x) && x != window) by {
                lemma_without_contains(old(self).tree.windows_spec(), window, x);
            }
            reveal_with_fuel(Seq::filter, 1);
            old(self).tree.windows_spec().lemma_filter_len(neq_pred(window));
        }
        self.floating = drop_entry(&self.floating, window);
        self.strip_stacks(window);
        let ghost t1 = self.tree.windows_spec();
        let ghost v1 = stacks_view(self.stacks@);
        proof {
            assert(v1.len() == self.stacks@.len());
            assert(stacks_view(old(self).stacks@).len() == old(self).stacks@.len());
            assert(self.stacks@.len() == old(self).stacks@.len());
            assert(t1.len() <= old(self).tree.windows_spec().len());
        }
        self.prune_stacks(live);
        if self.focus_floating == Some(window) {
            self.focus_floating = None;
        }
        if self.fullscreen == Some(window) {
            self.fullscreen = None;
        }
        proof {
            lemma_filter_entries_ids_without(old(self).floating@, window);
            // stack members after stripping and pruning never include `window`
            assert forall|x: u32| #[trigger] in_some_stack(v1, x) implies x != window
                && in_some_stack(stacks_view(old(self).stacks@), x) by {
                let i = choose|i: int| 0 <= i < v1.len() && (#[trigger] v1[i]).0.contains(x);
                lemma_without_contains(stacks_view(old(self).stacks@)[i].0, window, x);
                assert(stacks_view(old(self).stacks@)[i].0.contains(x));
            }
            lemma_pruned_stacks_members(v1, live@, window);
            assert forall|x: u32|
                self.tree.windows_spec().contains(x) implies x != window && (old(self).tree.windows_spec().contains(x) || in_some_stack(
                stacks_view(old(self).stacks@),
                x,
            )) by {
                if !t1.contains(x) {
                    let i = choose|i: int| 0 <= i < v1.len() && slot_holder(#[trigger] v1[i], live@)
                        == Some(x);
                    lemma_pruned_members(v1[i], live@, x);
                    assert(in_some_stack(v1, x));
                }
            }
            assert(!self.tree.windows_spec().contains(window));
            assert(!entry_ids(self.floating@).contains(window));
            if self.windows_spec().contains(window) {
                let j = choose|j: int|
                    0 <= j < self.windows_spec().len() && self.windows_spec()[j] == window;
                if j < self.tree.windows_spec().len() {
                    assert(self.tree.windows_spec()[j] == window);
                } else {
                    assert(entry_ids(self.floating@)[j - self.tree.windows_spec().len()]
                        == window);
                }
            }
        }
    }

    /// What `prune_dead(live)` makes of a desk `old`.
    pub open spec fn dead_dropped(old: Workspace, new: Workspace, live: Seq<u32>) -> bool {
        &&& new.wf()
        &&& new.tree.windows_spec() == keep_live(old.tree.windows_spec(), live)
        &&& new.floating@ == old.floating@.filter(entry_live(live))
        &&& new.focus_floating == match old.focus_floating {
            Some(w) => if live.contains(w) {
                Some(w)
            } else {
                None
            },
            None => None,
        }
        &&& new.fullscreen == match old.fullscreen {
            Some(w) => if live.contains(w) {
                Some(w)
            } else {
                None
            },
            None => None,
        }
        &&& new.stacks@ == old.stacks@
        &&& new.id == old.id
        &&& new.output@ == old.output@
        &&& new.mode == old.mode
    }

    /// What `prune_stacks(live)` makes of a desk `old`.
    pub open spec fn stacks_pruned(old: Workspace, new: Workspace, live: Seq<u32>) -> bool {
        &&& new.wf()
        &&& stacks_view(new.stacks@) == pruned_stacks(stacks_view(old.stacks@), live)
        &&& new.floating@ == old.floating@
        &&& new.id == old.id
        &&& new.output@ == old.output@
        &&& new.mode == old.mode
        &&& new.focus_floating == old.focus_floating
        &&& new.fullscreen == old.fullscreen
        &&& new.tree.windows_spec().len() <= old.tree.windows_spec().len() + old.stacks@.len()
        &&& forall|w: u32|
            old.tree.windows_spec().contains(w) ==> new.tree.windows_spec().contains(w)
        &&& forall|w: u32|
            #![trigger new.tree.windows_spec().contains(w)]
            new.tree.windows_spec().contains(w) ==> old.tree.windows_spec().contains(w) || exists|i: int|
                0 <= i < old.stacks@.len() && slot_holder(#[trigger] stacks_view(old.stacks@)[i], live)
                    == Some(w)
        &&& forall|i: int|
            0 <= i < old.stacks@.len() ==> (slot_holder(#[trigger] stacks_view(old.stacks@)[i], live) matches Some(
                a,
            ) ==> new.tree.windows_spec().contains(a) || entry_ids(new.floating@).contains(a))
    }

    /// What `prune_dead(live)` then `prune_stacks(live)` make of a desk.
    pub open spec fn desk_pruned(old: Workspace, new: Workspace, live: Seq<u32>) -> bool {
        exists|mid: Workspace|
            Workspace::dead_dropped(old, mid, live) && #[trigger] Workspace::stacks_pruned(mid, new, live)
    }

    /// Drop dead windows from the tree and the floating layer, and the focus
    /// and fullscreen marks of dead windows.
    pub fn prune_dead(&mut self, live: &Vec<u32>)
        requires
            old(self).wf(),
        ensures
            Workspace::dead_dropped(*old(self), *final(self), live@),
    {
        self.tree.prune_dead(live);
        proof {
            old(self).tree.windows_spec().lemma_filter_len(live_pred(live@));
        }
        self.floating = keep_live_entries(&self.floating, live);
        if let Some(w) = self.focus_floating {
            if !contains_id(live, w) {
                self.focus_floating = None;
            }
        }
        if let Some(w) = self.fullscreen {
            if !contains_id(live, w) {
                self.fullscreen = None;
            }
        }
    }

    /// Keep tabbed stacks consistent: drop dead members, make sure each
    /// stack's active member holds a tile (reinserting it into the tree if its
    /// slot vanished), and dissolve stacks left with one member.
    pub fn prune_stacks(&mut self, live: &Vec<u32>)
        requires
            old(self).tree.wf(),
            old(self).tree.windows_spec().len() + old(self).stacks@.len() <= WINDOW_LIMIT,
        ensures
            Workspace::stacks_pruned(*old(self), *final(self), live@),
    {
        let mut old_stacks: Vec<Stack> = Vec::new();
        std::mem::swap(&mut old_stacks, &mut self.stacks);
        let ghost v0 = stacks_view(old_stacks@);
        let ghost t0 = self.tree.windows_spec();
        let ghost s0 = old_stacks@.len();
        let mut i: usize = 0;
        proof {
            assert(v0.skip(0) =~= v0);
            assert(stacks_view(self.stacks@) =~= Seq::<(Seq<u32>, usize)>::empty());
        }
        while i < old_stacks.len()
            invariant
                i <= old_stacks@.len(),
                v0 == stacks_view(old_stacks@),
                v0 == stacks_view(old(self).stacks@),
                t0 == old(self).tree.windows_spec(),
                s0 == old_stacks@.len(),
                t0.len() + s0 <= WINDOW_LIMIT,
                self.tree.wf(),
                self.tree.windows_spec().len() <= t0.len() + i,
                stacks_view(self.stacks@) + pruned_stacks(v0.skip(i as int), live@) == pruned_stacks(
                    v0,
                    live@,
                ),
                self.floating@ == old(self).floating@,
                self.id == old(self).id,
                self.output@ == old(self).output@,
                self.mode == old(self).mode,
                self.focus_floating == old(self).focus_floating,
                self.fullscreen == old(self).fullscreen,
                forall|w: u32| t0.contains(w) ==> self.tree.windows_spec().contains(w),
                forall|w: u32|
                    #![trigger self.tree.windows_spec().contains(w)]
                    self.tree.windows_spec().contains(w) ==> t0.contains(w) || exists|j: int|
                        0 <= j < i && slot_holder(#[trigger] v0[j], live@) == Some(w),
                forall|j: int|
                    0 <= j < i ==> (slot_holder(#[trigger] v0[j], live@) matches Some(a)
                        ==> self.tree.windows_spec().contains(a) || entry_ids(
                        self.floating@,
                    ).contains(a)),
            decreases old_stacks.len() - i,
        {
            proof {
                lemma_pruned_stacks_step(v0, i as int, live@);
            }
            let members = filter_live(&old_stacks[i].members, live);
            let ghost e = v0[i as int];
            let ghost sv = stacks_view(self.stacks@);
            proof {
                assert(e == (old_stacks@[i as int].members@, old_stacks@[i as int].active));
            }
            if members.len() > 0 {
                let active = if old_stacks[i].active >= members.len() {
                    0
                } else {
                    old_stacks[i].active
                };
                let a = members[active];
                proof {
                    assert(slot_holder(e, live@) == Some(a));
                }
                let ghost before = self.tree.windows_spec();
                let ghost fi = self.tree.focus_index();
                proof {
                    self.tree.lemma_view();
                }
                if !self.tree.contains(a) && !entries_contain(&self.floating, a) {
                    self.tree.insert(a);
                    proof {
                        if before.len() == 0 {
                            assert(self.tree.windows_spec() =~= seq![a]);
                            assert forall|x: u32| self.tree.windows_spec().contains(x) <==> x == a by {
                                if self.tree.windows_spec().contains(x) {
                                    let j = choose|j: int|
                                        0 <= j < self.tree.windows_spec().len()
                                            && self.tree.windows_spec()[j] == x;
                                }
                                if x == a {
                                    assert(self.tree.windows_spec()[0] == a);
                                }
                            }
                        } else {
                            lemma_insert_contains(before, fi + 1, a);
                        }
                        assert(self.tree.windows_spec().contains(a));
                        assert forall|w: u32|
                            #![trigger self.tree.windows_spec().contains(w)]
                            self.tree.windows_spec().contains(w) implies t0.contains(w) || exists|j: int|
                                0 <= j < i + 1 && slot_holder(#[trigger] v0[j], live@) == Some(w) by {
                            if w != a {
                                assert(before.contains(w));
                                if !t0.contains(w) {
                                    let j = choose|j: int|
                                        0 <= j < i && slot_holder(#[trigger] v0[j], live@) == Some(w);
                                    assert(0 <= j < i + 1);
                                }
                            } else {
                                assert(slot_holder(v0[i as int], live@) == Some(w));
                            }
                        }
                    }
                } else {
                    proof {
                        assert forall|w: u32|
                            #![trigger self.tree.windows_spec().contains(w)]
                            self.tree.windows_spec().contains(w) implies t0.contains(w) || exists|j: int|
                                0 <= j < i + 1 && slot_holder(#[trigger] v0[j], live@) == Some(w) by {
                            if !t0.contains(w) {
                                let j = choose|j: int|
                                    0 <= j < i && slot_holder(#[trigger] v0[j], live@) == Some(w);
                                assert(0 <= j < i + 1);
                            }
                        }
                    }
                }
                if members.len() >= 2 {
                    self.stacks.push(Stack { members, active });
                    proof {
                        assert(stacks_view(self.stacks@) =~= sv.push(pruned_stack(e, live@)));
                        assert(sv.push(pruned_stack(e, live@)) + pruned_stacks(
                            v0.skip(i + 1),
                            live@,
                        ) =~= sv + (seq![pruned_stack(e, live@)] + pruned_stacks(
                            v0.skip(i + 1),
                            live@,
                        )));
                    }
                }
            }
            i += 1;
        }
        proof {
            assert(v0.skip(i as int) =~= Seq::<(Seq<u32>, usize)>::empty());
            assert(stacks_view(self.stacks@) + pruned_stacks(v0.skip(i as int), live@) =~= stacks_view(
                self.stacks@,
            ));
            lemma_stacks_ok(self.stacks@, v0, live@);
        }
    }

    /// What `insert_tiled(window)` makes of a desk `old`.
    pub open spec fn tiled_in(old: Workspace, new: Workspace, window: u32) -> bool {
        &&& new.wf()
        &&& new.tree.windows_spec().contains(window)
        &&& new.contains_spec(window)
        &&& new.tree.focused_spec() == Some(window)
        &&& forall|x: u32| #[trigger]
            new.tree.windows_spec().contains(x) <==> (old.tree.windows_spec().contains(x) || x
                == window)
        &&& new.tree.windows_spec().len() == old.tree.windows_spec().len() + 1
        &&& new.floating == old.floating
        &&& new.stacks == old.stacks
        &&& new.id == old.id
        &&& new.output == old.output
        &&& new.mode == old.mode
        &&& new.focus_floating == old.focus_floating
        &&& new.fullscreen == old.fullscreen
    }

    /// What taking `window` off desk `old` (if it holds it) makes of it.
    pub open spec fn left_by(old: Workspace, new: Workspace, window: u32, live: Seq<u32>) -> bool {
        if old.contains_spec(window) {
            Workspace::removed_from(old, new, window, live)
        } else {
            new == old
        }
    }

    /// Tile `window` on this desk (it becomes the tree's focused leaf).
    pub fn insert_tiled(&mut self, window: u32)
        requires
            old(self).wf(),
            old(self).tree.windows_spec().len() + 1 <= WINDOW_LIMIT,
        ensures
            Workspace::tiled_in(*old(self), *final(self), window),
    {
        let ghost t0 = self.tree.windows_spec();
        let ghost fi = self.tree.focus_index();
        proof {
            self.tree.lemma_view();
        }
        self.tree.insert(window);
        proof {
            let t = self.tree.windows_spec();
            if t0.len() == 0 {
                assert(t =~= seq![window]);
                assert forall|x: u32| #[trigger] t.contains(x) <==> (t0.contains(x) || x == window) by {
                    if t.contains(x) {
                        let j = choose|j: int| 0 <= j < t.len() && t[j] == x;
                    }
                    if x == window {
                        assert(t[0] == window);
                    }
                }
            } else {
                lemma_insert_contains(t0, fi + 1, window);
            }
            if t0.len() == 0 {
                assert(t[0] == window);
                assert(self.windows_spec()[0] == window);
            } else {
                t0.insert_ensures(fi + 1, window);
                assert(t[fi + 1] == window);
                assert(self.windows_spec()[fi + 1] == window);
            }
        }
    }

    /// Whether `window` is in this desk's floating layer.
    pub fn floats(&self, window: u32) -> (r: bool)
        ensures
            r == entry_ids(self.floating@).contains(window),
    {
        let mut i: usize = 0;
        while i < self.floating.len()
            invariant
                i <= self.floating@.len(),
                forall|j: int| 0 <= j < i ==> (#[trigger] self.floating@[j]).0 != window,
            decreases self.floating.len() - i,
        {
            if self.floating[i].0 == window {
                proof {
                    assert(entry_ids(self.floating@)[i as int] == window);
                }
                return true;
            }
            i += 1;
        }
        proof {
            if entry_ids(self.floating@).contains(window) {
                let j = choose|j: int|
                    0 <= j < entry_ids(self.floating@).len() && entry_ids(self.floating@)[j] == window;
                assert(self.floating@[j].0 == window);
            }
        }
        false
    }

    /// Does this desk own `window`? Stack members count: only a stack's
    /// active member holds a tree slot.
    pub fn contains(&self, window: u32) -> (r: bool)
        ensures
            r == self.contains_spec(window),
    {
        let ws = self.windows();
        if contains_id(&ws, window) {
            return true;
        }
        self.stack_of(window).is_some()
    }
}

/// Whether `list` holds a desk numbered `id`.
pub open spec fn has_id(list: Seq<Workspace>, id: u32) -> bool {
    exists|i: int| 0 <= i < list.len() && (#[trigger] list[i]).id == id
}

/// Desk ids strictly increase along `list`.
pub open spec fn sorted_ids(list: Seq<Workspace>) -> bool {
    forall|i: int, j: int| 0 <= i < j < list.len() ==> (#[trigger] list[i]).id < (#[trigger] list[j]).id
}

/// Position of desk `id` in `list` (meaningful when it is there).
pub open spec fn pos_of(list: Seq<Workspace>, id: u32) -> int {
    choose|i: int| 0 <= i < list.len() && (#[trigger] list[i]).id == id
}

pub proof fn lemma_pos_of(list: Seq<Workspace>, id: u32)
    requires
        sorted_ids(list),
        has_id(list, id),
    ensures
        0 <= pos_of(list, id) < list.len(),
        list[pos_of(list, id)].id == id,
        forall|j: int| 0 <= j < list.len() && (#[trigger] list[j]).id == id ==> j == pos_of(list, id),
{
    let i = pos_of(list, id);
    assert forall|j: int| 0 <= j < list.len() && (#[trigger] list[j]).id == id implies j == i by {
        if j < i {
            assert(list[j].id < list[i].id);
        } else if j > i {
            assert(list[i].id < list[j].id);
        }
    }
}


/// The desk shown on monitor `o`: the first entry for it.
pub open spec fn shown_on_spec(shown: Seq<(Seq<char>, u32)>, o: Seq<char>) -> Option<u32>
    decreases shown.len(),
{
    if shown.len() == 0 {
        None
    } else if shown[0].0 == o {
        Some(shown[0].1)
    } else {
        shown_on_spec(shown.drop_first(), o)
    }
}

/// The monitor showing desk `id`: the first entry for it.
pub open spec fn output_showing_spec(shown: Seq<(Seq<char>, u32)>, id: u32) -> Option<Seq<char>>
    decreases shown.len(),
{
    if shown.len() == 0 {
        None
    } else if shown[0].1 == id {
        Some(shown[0].0)
    } else {
        output_showing_spec(shown.drop_first(), id)
    }
}

/// Id of the first desk in `list` that owns `w`.
pub open spec fn find_spec(list: Seq<Workspace>, w: u32) -> Option<u32>
    decreases list.len(),
{
    if list.len() == 0 {
        None
    } else if list[0].contains_spec(w) {
        Some(list[0].id)
    } else {
        find_spec(list.drop_first(), w)
    }
}

/// Every desk's windows, desk after desk.
pub open spec fn all_windows_spec(list: Seq<Workspace>) -> Seq<u32>
    decreases list.len(),
{
    if list.len() == 0 {
        Seq::empty()
    } else {
        all_windows_spec(list.drop_last()) + list.last().windows_spec()
    }
}

/// The smallest id at least `from` that no desk in `list` uses.
pub open spec fn is_smallest_free(list: Seq<Workspace>, from: int, id: int) -> bool {
    &&& from <= id
    &&& !has_id(list, id as u32)
    &&& id <= u32::MAX
    &&& forall|k: int| from <= k < id ==> #[trigger] has_id(list, k as u32)
}

proof fn lemma_shown_on_has_id(shown: Seq<(Seq<char>, u32)>, o: Seq<char>)
    ensures
        shown_on_spec(shown, o) matches Some(id) ==> exists|j: int|
            0 <= j < shown.len() && shown[j].0 == o && shown[j].1 == id,
    decreases shown.len(),
{
    if shown.len() > 0 && shown[0].0 != o {
        lemma_shown_on_has_id(shown.drop_first(), o);
        if let Some(id) = shown_on_spec(shown, o) {
            let j = choose|j: int|
                0 <= j < shown.drop_first().len() && shown.drop_first()[j].0 == o
                    && shown.drop_first()[j].1 == id;
            assert(shown[j + 1] == shown.drop_first()[j]);
        }
    }
}

proof fn lemma_shown_on_skip(shown: Seq<(Seq<char>, u32)>, o: Seq<char>, i: int)
    requires
        0 <= i < shown.len(),
        shown[i].0 != o,
    ensures
        shown_on_spec(shown.skip(i), o) == shown_on_spec(shown.skip(i + 1), o),
{
    assert(shown.skip(i)[0] == shown[i]);
    assert(shown.skip(i).drop_first() =~= shown.skip(i + 1));
}

proof fn lemma_output_showing_skip(shown: Seq<(Seq<char>, u32)>, id: u32, i: int)
    requires
        0 <= i < shown.len(),
        shown[i].1 != id,
    ensures
        output_showing_spec(shown.skip(i), id) == output_showing_spec(shown.skip(i + 1), id),
{
    assert(shown.skip(i)[0] == shown[i]);
    assert(shown.skip(i).drop_first() =~= shown.skip(i + 1));
}


/// Index of the first entry for monitor `o`.
pub open spec fn output_index(shown: Seq<(Seq<char>, u32)>, o: Seq<char>) -> Option<int>
    decreases shown.len(),
{
    if shown.len() == 0 {
        None
    } else if shown[0].0 == o {
        Some(0)
    } else {
        match output_index(shown.drop_first(), o) {
            Some(i) => Some(i + 1),
            None => None,
        }
    }
}

proof fn lemma_output_index(shown: Seq<(Seq<char>, u32)>, o: Seq<char>)
    ensures
        output_index(shown, o) matches Some(i) ==> 0 <= i < shown.len() && shown[i].0 == o
            && shown_on_spec(shown, o) == Some(shown[i].1),
        output_index(shown, o) is None <==> shown_on_spec(shown, o) is None,
        output_index(shown, o) is None ==> forall|j: int| 0 <= j < shown.len() ==> shown[j].0 != o,
        output_index(shown, o) matches Some(i) ==> forall|j: int| 0 <= j < i ==> shown[j].0 != o,
    decreases shown.len(),
{
    if shown.len() > 0 && shown[0].0 != o {
        lemma_output_index(shown.drop_first(), o);
        assert forall|j: int| 0 < j < shown.len() implies shown[j] == shown.drop_first()[j - 1] by {}
    }
}

/// `shown` after monitor `o` switches to desk `id`: its entry changes, or a
/// new entry is added if it had none.
pub open spec fn switched_shown(shown: Seq<(Seq<char>, u32)>, o: Seq<char>, id: u32) -> Seq<
    (Seq<char>, u32),
> {
    match output_index(shown, o) {
        Some(i) => shown.update(i, (o, id)),
        None => shown.push((o, id)),
    }
}

/// Desk `w` may be reclaimed by monitor `o`: off screen, and owned by `o`
/// before (`owned`) or never placed (`!owned`).
pub open spec fn reclaimable(w: Workspace, shown: Seq<(Seq<char>, u32)>, o: Seq<char>, owned: bool) -> bool {
    &&& !(exists|i: int| 0 <= i < shown.len() && (#[trigger] shown[i]).1 == w.id)
    &&& if owned {
        w.output@ == o
    } else {
        w.output@.len() == 0
    }
}

/// The first reclaimable desk (lowest id).
pub open spec fn first_reclaimable(
    list: Seq<Workspace>,
    shown: Seq<(Seq<char>, u32)>,
    o: Seq<char>,
    owned: bool,
) -> Option<u32>
    decreases list.len(),
{
    if list.len() == 0 {
        None
    } else if reclaimable(list[0], shown, o, owned) {
        Some(list[0].id)
    } else {
        first_reclaimable(list.drop_first(), shown, o, owned)
    }
}

proof fn lemma_first_reclaimable_has(list: Seq<Workspace>, shown: Seq<(Seq<char>, u32)>, o: Seq<char>, owned: bool)
    ensures
        first_reclaimable(list, shown, o, owned) matches Some(id) ==> has_id(list, id),
    decreases list.len(),
{
    if list.len() > 0 && !reclaimable(list[0], shown, o, owned) {
        lemma_first_reclaimable_has(list.drop_first(), shown, o, owned);
        if let Some(id) = first_reclaimable(list, shown, o, owned) {
            let j = choose|j: int|
                0 <= j < list.drop_first().len() && (#[trigger] list.drop_first()[j]).id == id;
            assert(list[j + 1].id == id);
        }
    } else if list.len() > 0 {
        assert(list[0].id == list[0].id);
    }
}

proof fn lemma_smallest_free_unique(list: Seq<Workspace>, from: int, a: int, b: int)
    requires
        is_smallest_free(list, from, a),
        is_smallest_free(list, from, b),
    ensures
        a == b,
{
    if a < b {
        assert(has_id(list, a as u32));
    } else if b < a {
        assert(has_id(list, b as u32));
    }
}

/// The desk a newly plugged monitor `o` gets: the lowest off-screen desk it
/// owned before, else the lowest off-screen desk never placed, else the
/// lowest free number.
pub open spec fn output_pick(list: Seq<Workspace>, shown: Seq<(Seq<char>, u32)>, o: Seq<char>) -> u32 {
    match first_reclaimable(list, shown, o, true) {
        Some(id) => id,
        None => match first_reclaimable(list, shown, o, false) {
            Some(id) => id,
            None => (choose|id: int| is_smallest_free(list, 1, id)) as u32,
        },
    }
}

/// Whether a desk survives pruning: it is the focused one, on screen, or
/// holds something.
pub open spec fn keeps(active: u32, shown: Seq<(Seq<char>, u32)>) -> spec_fn(Workspace) -> bool {
    |w: Workspace|
        w.id == active || (exists|i: int| 0 <= i < shown.len() && (#[trigger] shown[i]).1 == w.id)
            || !w.is_empty_spec()
}


/// Inserting a desk at the position that keeps ids sorted.
#[verifier::rlimit(30)]
proof fn lemma_insert_sorted(old_list: Seq<Workspace>, k: int, ws: Workspace)
    requires
        sorted_ids(old_list),
        0 <= k <= old_list.len(),
        forall|j: int| 0 <= j < k ==> (#[trigger] old_list[j]).id < ws.id,
        forall|j: int| k <= j < old_list.len() ==> (#[trigger] old_list[j]).id > ws.id,
    ensures
        sorted_ids(old_list.insert(k, ws)),
        forall|x: u32|
            #[trigger] has_id(old_list.insert(k, ws), x) <==> has_id(old_list, x) || x == ws.id,
        forall|x: u32|
            has_id(old_list, x) ==> #[trigger] old_list.insert(k, ws)[pos_of(old_list.insert(k, ws), x)]
                == old_list[pos_of(old_list, x)],
        forall|i: int|
            0 <= i < old_list.insert(k, ws).len() && i != k ==> #[trigger] old_list.insert(k, ws)[i]
                == if i < k {
                old_list[i]
            } else {
                old_list[i - 1]
            },
{
    let nl = old_list.insert(k, ws);
    old_list.insert_ensures(k, ws);
    assert forall|a: int, b: int| 0 <= a < b < nl.len() implies (#[trigger] nl[a]).id < (
    #[trigger] nl[b]).id by {
        if a < k && b < k {
            assert(nl[a] == old_list[a] && nl[b] == old_list[b]);
        } else if a < k && b == k {
            assert(nl[a] == old_list[a]);
        } else if a < k && b > k {
            assert(nl[a] == old_list[a] && nl[b] == old_list[b - 1]);
        } else if a == k {
            assert(nl[b] == old_list[b - 1]);
        } else {
            assert(nl[a] == old_list[a - 1] && nl[b] == old_list[b - 1]);
        }
    }
    assert forall|x: u32| #[trigger] has_id(nl, x) <==> has_id(old_list, x) || x == ws.id by {
        if has_id(old_list, x) {
            let j = choose|j: int| 0 <= j < old_list.len() && (#[trigger] old_list[j]).id == x;
            if j < k {
                assert(nl[j].id == x);
            } else {
                assert(nl[j + 1].id == x);
            }
        }
        if x == ws.id {
            assert(nl[k].id == x);
        }
        if has_id(nl, x) {
            let j = choose|j: int| 0 <= j < nl.len() && (#[trigger] nl[j]).id == x;
            if j < k {
                assert(old_list[j].id == x);
            } else if j > k {
                assert(old_list[j - 1].id == x);
            }
        }
    }
    assert forall|x: u32| has_id(old_list, x) implies #[trigger] nl[pos_of(nl, x)] == old_list[pos_of(
        old_list,
        x,
    )] by {
        lemma_pos_of(old_list, x);
        assert(has_id(nl, x));
        lemma_pos_of(nl, x);
        let j = pos_of(old_list, x);
        if j < k {
            assert(nl[j].id == x);
        } else {
            assert(nl[j + 1].id == x);
        }
    }
}


/// A desk kept by a filter is still found, unchanged, in the filtered list.
proof fn lemma_filter_keeps(list: Seq<Workspace>, pred: spec_fn(Workspace) -> bool, x: u32)
    requires
        sorted_ids(list),
        sorted_ids(list.filter(pred)),
        has_id(list, x),
        pred(list[pos_of(list, x)]),
    ensures
        has_id(list.filter(pred), x),
        list.filter(pred)[pos_of(list.filter(pred), x)] == list[pos_of(list, x)],
{
    lemma_pos_of(list, x);
    let i = pos_of(list, x);
    list.lemma_filter_contains(pred, i);
    let f = list.filter(pred);
    let j = choose|j: int| 0 <= j < f.len() && f[j] == list[i];
    assert(f[j].id == x);
    lemma_pos_of(f, x);
}

/// Every desk of a filtered list comes from the list.
proof fn lemma_filter_has(list: Seq<Workspace>, pred: spec_fn(Workspace) -> bool, x: u32)
    requires
        has_id(list.filter(pred), x),
    ensures
        has_id(list, x),
{
    let f = list.filter(pred);
    let j = choose|j: int| 0 <= j < f.len() && (#[trigger] f[j]).id == x;
    list.lemma_filter_contains_rev(pred, f[j]);
    let i = choose|i: int| 0 <= i < list.len() && list[i] == f[j];
    assert(list[i].id == x);
}


/// Two desk lists with the same ids position by position place each id at
/// the same position.
proof fn lemma_same_ids(a: Seq<Workspace>, b: Seq<Workspace>)
    requires
        a.len() == b.len(),
        forall|i: int| 0 <= i < a.len() ==> (#[trigger] a[i]).id == b[i].id,
        sorted_ids(a),
    ensures
        sorted_ids(b),
        forall|x: u32| #[trigger] has_id(a, x) <==> has_id(b, x),
        forall|x: u32| #[trigger] has_id(a, x) ==> pos_of(b, x) == pos_of(a, x),
{
    assert forall|i: int, j: int| 0 <= i < j < b.len() implies (#[trigger] b[i]).id < (#[trigger] b[j]).id by {
        assert(a[i].id < a[j].id);
    }
    assert forall|x: u32| #[trigger] has_id(a, x) <==> has_id(b, x) by {
        if has_id(a, x) {
            let i = choose|i: int| 0 <= i < a.len() && (#[trigger] a[i]).id == x;
            assert(b[i].id == x);
        }
        if has_id(b, x) {
            let i = choose|i: int| 0 <= i < b.len() && (#[trigger] b[i]).id == x;
            assert(a[i].id == x);
        }
    }
    assert forall|x: u32| #[trigger] has_id(a, x) implies pos_of(b, x) == pos_of(a, x) by {
        lemma_pos_of(a, x);
        assert(has_id(b, x));
        lemma_pos_of(b, x);
        assert(b[pos_of(a, x)].id == x);
    }
}

/// A desk of a filtered list is the desk of that id in the list.
proof fn lemma_filter_get(list: Seq<Workspace>, pred: spec_fn(Workspace) -> bool, x: u32)
    requires
        sorted_ids(list),
        sorted_ids(list.filter(pred)),
        has_id(list.filter(pred), x),
    ensures
        has_id(list, x),
        list.filter(pred)[pos_of(list.filter(pred), x)] == list[pos_of(list, x)],
{
    let f = list.filter(pred);
    lemma_pos_of(f, x);
    let e = f[pos_of(f, x)];
    list.lemma_filter_contains_rev(pred, e);
    let i = choose|i: int| 0 <= i < list.len() && list[i] == e;
    assert(list[i].id == x);
    lemma_pos_of(list, x);
}

/// Windows of the desks on screen, monitor by monitor.
pub open spec fn visible_spec(list: Seq<Workspace>, shown: Seq<(Seq<char>, u32)>) -> Seq<u32>
    decreases shown.len(),
{
    if shown.len() == 0 {
        Seq::empty()
    } else {
        visible_spec(list, shown.drop_last()) + if has_id(list, shown.last().1) {
            list[pos_of(list, shown.last().1)].windows_spec()
        } else {
            Seq::empty()
        }
    }
}

/// When only the desk at `p` owns `w`, it is the one found for `w`.
proof fn lemma_find_only(list: Seq<Workspace>, w: u32, p: int)
    requires
        0 <= p < list.len(),
        list[p].contains_spec(w),
        forall|i: int| 0 <= i < list.len() && i != p ==> !(#[trigger] list[i]).contains_spec(w),
    ensures
        find_spec(list, w) == Some(list[p].id),
    decreases list.len(),
{
    if p > 0 {
        assert(!list[0].contains_spec(w));
        assert forall|i: int| 0 <= i < list.drop_first().len() && i != p - 1 implies !(
        #[trigger] list.drop_first()[i]).contains_spec(w) by {
            assert(list.drop_first()[i] == list[i + 1]);
        }
        lemma_find_only(list.drop_first(), w, p - 1);
    }
}

/// No desk owns `w`, so none is found for it.
proof fn lemma_find_none(list: Seq<Workspace>, w: u32)
    requires
        forall|i: int| 0 <= i < list.len() ==> !(#[trigger] list[i]).contains_spec(w),
    ensures
        find_spec(list, w) is None,
    decreases list.len(),
{
    if list.len() > 0 {
        assert forall|i: int| 0 <= i < list.drop_first().len() implies !(
        #[trigger] list.drop_first()[i]).contains_spec(w) by {
            assert(list.drop_first()[i] == list[i + 1]);
        }
        lemma_find_none(list.drop_first(), w);
    }
}

/// All workspaces, the focused one, and which desk each monitor shows.
pub struct Workspaces {
    /// Sorted by id.
    list: Vec<Workspace>,
    active: u32,
    /// The workspace active before the current one, for back-and-forth.
    previous: u32,
    /// Stage shelf (the scratchpad): windows parked off every desk. Top card first.
    pub scratchpad: Vec<u32>,
    /// (output name, workspace id): the desk each monitor is showing.
    shown: Vec<(String, u32)>,
}

impl Workspaces {
    /// Every desk, sorted by id.
    pub closed spec fn list_spec(self) -> Seq<Workspace> {
        self.list@
    }

    pub closed spec fn active_spec(self) -> u32 {
        self.active
    }

    pub closed spec fn previous_spec(self) -> u32 {
        self.previous
    }

    /// The stage shelf, top card first.
    pub closed spec fn scratchpad_spec(self) -> Seq<u32> {
        self.scratchpad@
    }

    /// (output name, desk id) per monitor, in plug-in order.
    pub closed spec fn shown_spec(self) -> Seq<(Seq<char>, u32)> {
        self.shown@.map_values(|e: (String, u32)| (e.0@, e.1))
    }

    /// Ids sorted and unique, the active desk exists, every desk well formed.
    pub closed spec fn wf(self) -> bool {
        &&& sorted_ids(self.list@)
        &&& has_id(self.list@, self.active)
        &&& forall|i: int| 0 <= i < self.list@.len() ==> (#[trigger] self.list@[i]).wf()
        &&& forall|i: int|
            0 <= i < self.shown@.len() ==> has_id(self.list@, (#[trigger] self.shown@[i]).1)
    }

    /// Room on every desk for one more tiled window per stack, plus one
    /// (a machine limit: see `WINDOW_LIMIT`).
    pub closed spec fn room(self) -> bool {
        forall|i: int|
            0 <= i < self.list@.len() ==> (#[trigger] self.list@[i]).tree.windows_spec().len()
                + self.list@[i].stacks@.len() + 1 <= WINDOW_LIMIT
    }

    /// The active desk.
    pub open spec fn active_ws(self) -> Workspace {
        self.list_spec()[pos_of(self.list_spec(), self.active_spec())]
    }

    /// Desk `id`, if it exists.
    pub open spec fn get_spec(self, id: u32) -> Option<Workspace> {
        if has_id(self.list_spec(), id) {
            Some(self.list_spec()[pos_of(self.list_spec(), id)])
        } else {
            None
        }
    }

    /// Some desk owns `w`.
    pub open spec fn owns(self, w: u32) -> bool {
        exists|i: int|
            0 <= i < self.list_spec().len() && (#[trigger] self.list_spec()[i]).contains_spec(w)
    }

    /// Desk `id` is on screen on some monitor.
    pub open spec fn is_shown_spec(self, id: u32) -> bool {
        exists|i: int| 0 <= i < self.shown_spec().len() && (#[trigger] self.shown_spec()[i]).1 == id
    }

    pub proof fn lemma_wf(self)
        requires
            self.wf(),
        ensures
            sorted_ids(self.list_spec()),
            has_id(self.list_spec(), self.active_spec()),
            self.get_spec(self.active_spec()) == Some(self.active_ws()),
            self.active_ws().id == self.active_spec(),
            self.active_ws().wf(),
            forall|i: int| 0 <= i < self.list_spec().len() ==> (#[trigger] self.list_spec()[i]).wf(),
    {
        lemma_pos_of(self.list@, self.active);
    }

    /// With room everywhere, the active desk has room for one more tile.
    pub proof fn lemma_room(self)
        requires
            self.wf(),
            self.room(),
        ensures
            self.active_ws().tree.windows_spec().len() + self.active_ws().stacks@.len() + 1
                <= WINDOW_LIMIT,
    {
        lemma_pos_of(self.list@, self.active);
    }

    pub fn new() -> (r: Workspaces)
        ensures
            r.wf(),
            r.room(),
            r.active_spec() == 1,
            r.previous_spec() == 1,
            r.list_spec().len() == 1,
            r.list_spec()[0].id == 1,
            r.list_spec()[0].is_empty_spec(),
            r.list_spec()[0].output@ == Seq::<char>::empty(),
            r.scratchpad_spec() == Seq::<u32>::empty(),
            r.shown_spec() == Seq::<(Seq<char>, u32)>::empty(),
    {
        let ws = Workspace::new(1, String::new());
        let mut list = Vec::new();
        list.push(ws);
        let r = Workspaces { list, active: 1, previous: 1, scratchpad: Vec::new(), shown: Vec::new() };
        proof {
            assert(r.list@[0].id == 1);
            assert(has_id(r.list@, 1));
            assert(r.shown_spec() =~= Seq::<(Seq<char>, u32)>::empty());
        }
        r
    }

    pub fn active_id(&self) -> (r: u32)
        ensures
            r == self.active_spec(),
    {
        self.active
    }

    /// The previously active workspace id (the back-and-forth target).
    pub fn previous_id(&self) -> (r: u32)
        ensures
            r == self.previous_spec(),
    {
        self.previous
    }

    /// Index of desk `id` in the list.
    fn find(&self, id: u32) -> (r: Option<usize>)
        requires
            sorted_ids(self.list@),
        ensures
            r is None <==> !has_id(self.list@, id),
            r matches Some(i) ==> i < self.list@.len() && self.list@[i as int].id == id && i
                == pos_of(self.list@, id),
    {
        let mut i: usize = 0;
        while i < self.list.len()
            invariant
                i <= self.list@.len(),
                sorted_ids(self.list@),
                forall|j: int| 0 <= j < i ==> (#[trigger] self.list@[j]).id != id,
            decreases self.list.len() - i,
        {
            if self.list[i].id == id {
                proof {
                    lemma_pos_of(self.list@, id);
                }
                return Some(i);
            }
            i += 1;
        }
        None
    }


    /// After changing the active desk through `active()` without touching
    /// its id or well-formedness, the whole is well formed again.
    pub proof fn lemma_active_update(old_ws: Workspaces, new_ws: Workspaces, w: Workspace)
        requires
            old_ws.wf(),
            new_ws.list_spec() == old_ws.list_spec().update(
                pos_of(old_ws.list_spec(), old_ws.active_spec()),
                w,
            ),
            new_ws.active_spec() == old_ws.active_spec(),
            new_ws.shown_spec() == old_ws.shown_spec(),
            w.id == old_ws.active_spec(),
            w.wf(),
        ensures
            new_ws.wf(),
            new_ws.active_ws() == w,
            forall|id: u32| #[trigger] has_id(new_ws.list_spec(), id) == has_id(old_ws.list_spec(), id),
    {
        lemma_pos_of(old_ws.list@, old_ws.active);
        let p = pos_of(old_ws.list@, old_ws.active);
        assert forall|i: int| 0 <= i < new_ws.list@.len() implies (#[trigger] new_ws.list@[i]).id
            == old_ws.list@[i].id by {}
        assert forall|id: u32| #[trigger] has_id(new_ws.list_spec(), id) == has_id(old_ws.list_spec(), id) by {
            if has_id(old_ws.list@, id) {
                let i = choose|i: int| 0 <= i < old_ws.list@.len() && (#[trigger] old_ws.list@[i]).id == id;
                assert(new_ws.list@[i].id == id);
            }
            if has_id(new_ws.list@, id) {
                let i = choose|i: int| 0 <= i < new_ws.list@.len() && (#[trigger] new_ws.list@[i]).id == id;
                assert(old_ws.list@[i].id == id);
            }
        }
        assert(new_ws.list@[p].id == new_ws.active);
        assert(has_id(new_ws.list@, new_ws.active));
        lemma_pos_of(new_ws.list@, new_ws.active);
        assert forall|i: int| 0 <= i < new_ws.shown@.len() implies has_id(
            new_ws.list@,
            (#[trigger] new_ws.shown@[i]).1,
        ) by {
            assert(new_ws.shown_spec()[i].1 == new_ws.shown@[i].1);
            assert(old_ws.shown_spec().len() == old_ws.shown@.len());
            assert(new_ws.shown_spec().len() == new_ws.shown@.len());
            assert(old_ws.shown_spec()[i].1 == old_ws.shown@[i].1);
            assert(has_id(old_ws.list@, old_ws.shown@[i].1));
        }
    }

    /// The active desk (it always exists).
    pub fn active_ref(&self) -> (r: &Workspace)
        requires
            self.wf(),
        ensures
            *r == self.active_ws(),
    {
        proof {
            lemma_pos_of(self.list@, self.active);
        }
        let i = self.find(self.active).unwrap();
        &self.list[i]
    }

    /// Look up a desk (None if it does not exist).
    pub fn get(&self, id: u32) -> (r: Option<&Workspace>)
        requires
            self.wf(),
        ensures
            r is Some <==> has_id(self.list_spec(), id),
            r matches Some(w) ==> *w == self.get_spec(id)->0,
    {
        match self.find(id) {
            Some(i) => Some(&self.list[i]),
            None => None,
        }
    }

    /// Look up a desk for changes (None if it does not exist).
    pub fn get_mut_existing(&mut self, id: u32) -> (r: Option<&mut Workspace>)
        requires
            old(self).wf(),
        ensures
            r is Some <==> has_id(old(self).list_spec(), id),
            r matches Some(w) ==> {
                &&& *w == old(self).get_spec(id)->0
                &&& final(self).list_spec() == old(self).list_spec().update(
                    pos_of(old(self).list_spec(), id),
                    *final(w),
                )
            },
            r is None ==> final(self).list_spec() == old(self).list_spec(),
            final(self).active_spec() == old(self).active_spec(),
            final(self).previous_spec() == old(self).previous_spec(),
            final(self).shown_spec() == old(self).shown_spec(),
            final(self).scratchpad_spec() == old(self).scratchpad_spec(),
    {
        match self.find(id) {
            Some(i) => Some(&mut self.list[i]),
            None => None,
        }
    }

    /// Connector name of the focused monitor ("" before any output exists).
    pub fn focused_output(&self) -> (r: &str)
        requires
            self.wf(),
        ensures
            r@ == self.active_ws().output@,
    {
        self.active_ref().output.as_str()
    }

    /// (output, desk id) for every monitor, in plug-in order.
    pub fn shown(&self) -> (r: &[(String, u32)])
        ensures
            r@.map_values(|e: (String, u32)| (e.0@, e.1)) == self.shown_spec(),
    {
        self.shown.as_slice()
    }

    /// The desk a monitor is showing.
    pub fn shown_on(&self, output: &str) -> (r: Option<u32>)
        ensures
            r == shown_on_spec(self.shown_spec(), output@),
    {
        let mut i: usize = 0;
        proof {
            assert(self.shown_spec().skip(0) =~= self.shown_spec());
        }
        while i < self.shown.len()
            invariant
                i <= self.shown@.len(),
                shown_on_spec(self.shown_spec().skip(i as int), output@) == shown_on_spec(
                    self.shown_spec(),
                    output@,
                ),
            decreases self.shown.len() - i,
        {
            if crate::text::str_eq(self.shown[i].0.as_str(), output) {
                proof {
                    assert(self.shown_spec().skip(i as int)[0] == self.shown_spec()[i as int]);
                }
                return Some(self.shown[i].1);
            }
            proof {
                lemma_shown_on_skip(self.shown_spec(), output@, i as int);
            }
            i += 1;
        }
        None
    }

    /// Is this desk on screen (on any monitor)?
    pub fn is_shown(&self, id: u32) -> (r: bool)
        ensures
            r == self.is_shown_spec(id),
    {
        let mut i: usize = 0;
        while i < self.shown.len()
            invariant
                i <= self.shown@.len(),
                forall|j: int| 0 <= j < i ==> (#[trigger] self.shown@[j]).1 != id,
            decreases self.shown.len() - i,
        {
            if self.shown[i].1 == id {
                proof {
                    assert(self.shown_spec()[i as int].1 == id);
                }
                return true;
            }
            i += 1;
        }
        proof {
            if self.is_shown_spec(id) {
                let j = choose|j: int|
                    0 <= j < self.shown_spec().len() && (#[trigger] self.shown_spec()[j]).1 == id;
                assert(self.shown@[j].1 == id);
            }
        }
        false
    }

    /// The monitor a desk is on screen on, if it is.
    pub fn output_showing(&self, id: u32) -> (r: Option<&str>)
        ensures
            r is Some <==> output_showing_spec(self.shown_spec(), id) is Some,
            r matches Some(o) ==> o@ == output_showing_spec(self.shown_spec(), id)->0,
    {
        let mut i: usize = 0;
        proof {
            assert(self.shown_spec().skip(0) =~= self.shown_spec());
        }
        while i < self.shown.len()
            invariant
                i <= self.shown@.len(),
                output_showing_spec(self.shown_spec().skip(i as int), id) == output_showing_spec(
                    self.shown_spec(),
                    id,
                ),
            decreases self.shown.len() - i,
        {
            if self.shown[i].1 == id {
                proof {
                    assert(self.shown_spec().skip(i as int)[0] == self.shown_spec()[i as int]);
                }
                return Some(self.shown[i].0.as_str());
            }
            proof {
                lemma_output_showing_skip(self.shown_spec(), id, i as int);
            }
            i += 1;
        }
        None
    }

    /// Focus a monitor (the pointer moved onto it). True if focus changed.
    pub fn focus_output(&mut self, output: &str) -> (r: bool)
        requires
            old(self).wf(),
        ensures
            final(self).wf(),
            r == (shown_on_spec(old(self).shown_spec(), output@) matches Some(id) && id != old(
                self,
            ).active_spec()),
            final(self).active_spec() == if r {
                shown_on_spec(old(self).shown_spec(), output@)->0
            } else {
                old(self).active_spec()
            },
            final(self).list_spec() == old(self).list_spec(),
            final(self).shown_spec() == old(self).shown_spec(),
            final(self).previous_spec() == old(self).previous_spec(),
            final(self).scratchpad_spec() == old(self).scratchpad_spec(),
    {
        match self.shown_on(output) {
            Some(id) => {
                if id != self.active {
                    proof {
                        lemma_shown_on_has_id(self.shown_spec(), output@);
                        let j = choose|j: int|
                            0 <= j < self.shown_spec().len() && self.shown_spec()[j].0 == output@
                                && self.shown_spec()[j].1 == id;
                        assert(has_id(self.list@, self.shown@[j].1));
                    }
                    self.active = id;
                    true
                } else {
                    false
                }
            },
            None => false,
        }
    }

    /// All workspaces, sorted by id.
    pub fn iter(&self) -> (r: &[Workspace])
        ensures
            r@ == self.list_spec(),
    {
        self.list.as_slice()
    }

    /// The desk owning `window` (the first by id), if any.
    pub fn find_workspace(&self, window: u32) -> (r: Option<u32>)
        ensures
            r == find_spec(self.list_spec(), window),
    {
        let mut i: usize = 0;
        proof {
            assert(self.list@.skip(0) =~= self.list@);
        }
        while i < self.list.len()
            invariant
                i <= self.list@.len(),
                find_spec(self.list@.skip(i as int), window) == find_spec(self.list@, window),
            decreases self.list.len() - i,
        {
            proof {
                assert(self.list@.skip(i as int)[0] == self.list@[i as int]);
                assert(self.list@.skip(i as int).drop_first() =~= self.list@.skip(i + 1));
            }
            if self.list[i].contains(window) {
                return Some(self.list[i].id);
            }
            i += 1;
        }
        None
    }

    /// All windows across all workspaces.
    pub fn all_windows(&self) -> (r: Vec<u32>)
        ensures
            r@ == all_windows_spec(self.list_spec()),
    {
        let mut out: Vec<u32> = Vec::new();
        let mut i: usize = 0;
        while i < self.list.len()
            invariant
                i <= self.list@.len(),
                out@ == all_windows_spec(self.list@.take(i as int)),
            decreases self.list.len() - i,
        {
            let ws = self.list[i].windows();
            let ghost before = out@;
            let mut j: usize = 0;
            while j < ws.len()
                invariant
                    j <= ws@.len(),
                    out@ == before + ws@.take(j as int),
                decreases ws.len() - j,
            {
                out.push(ws[j]);
                proof {
                    assert(ws@.take(j + 1) =~= ws@.take(j as int).push(ws@[j as int]));
                }
                j += 1;
            }
            proof {
                assert(ws@.take(j as int) =~= ws@);
                assert(self.list@.take(i + 1).drop_last() =~= self.list@.take(i as int));
                assert(self.list@.take(i + 1).last() == self.list@[i as int]);
            }
            i += 1;
        }
        proof {
            assert(self.list@.take(i as int) =~= self.list@);
        }
        out
    }


    /// Create desk `id` on demand (it belongs to the focused monitor); its
    /// position in the list.
    fn ensure(&mut self, id: u32) -> (r: usize)
        requires
            old(self).wf(),
        ensures
            final(self).wf(),
            r < final(self).list@.len(),
            final(self).list@[r as int].id == id,
            r == pos_of(final(self).list@, id),
            has_id(old(self).list@, id) ==> final(self).list@ == old(self).list@,
            !has_id(old(self).list@, id) ==> {
                &&& r <= old(self).list@.len()
                &&& final(self).list@ == old(self).list@.insert(r as int, final(self).list@[r as int])
                &&& final(self).list@[r as int].is_empty_spec()
                &&& final(self).list@[r as int].output@ == old(self).active_ws().output@
                &&& final(self).list@[r as int].mode == LayoutMode::Tiling
                &&& final(self).list@[r as int].focus_floating is None
                &&& final(self).list@[r as int].fullscreen is None
            },
            forall|x: u32| #[trigger] has_id(final(self).list@, x) <==> has_id(old(self).list@, x) || x == id,
            forall|x: u32| has_id(old(self).list@, x) ==> #[trigger] final(self).get_spec(x) == old(
                self).get_spec(x),
            final(self).active == old(self).active,
            final(self).previous == old(self).previous,
            final(self).shown@ == old(self).shown@,
            final(self).scratchpad@ == old(self).scratchpad@,
            old(self).room() ==> final(self).room(),
    {
        proof {
            lemma_pos_of(self.list@, self.active);
        }
        match self.find(id) {
            Some(i) => i,
            None => {
                let out = self.focused_output().to_owned();
                let ws = Workspace::new(id, out);
                // first position whose id exceeds `id`
                let mut k: usize = 0;
                while k < self.list.len() && self.list[k].id < id
                    invariant
                        k <= self.list@.len(),
                        sorted_ids(self.list@),
                        forall|j: int| 0 <= j < k ==> (#[trigger] self.list@[j]).id < id,
                    decreases self.list.len() - k,
                {
                    k += 1;
                }
                let ghost old_list = self.list@;
                proof {
                    assert forall|j: int| k <= j < old_list.len() implies (#[trigger] old_list[j]).id
                        > id by {
                        if j > k as int {
                            assert(old_list[k as int].id < old_list[j].id);
                        }
                        assert(old_list[k as int].id != id);
                    }
                }
                self.list.insert(k, ws);
                proof {
                    lemma_insert_sorted(old_list, k as int, self.list@[k as int]);
                    assert forall|i: int| 0 <= i < self.shown@.len() implies has_id(
                        self.list@,
                        (#[trigger] self.shown@[i]).1,
                    ) by {
                        assert(has_id(old_list, self.shown@[i].1));
                    }
                    assert(has_id(self.list@, self.active));
                    lemma_pos_of(self.list@, id);
                }
                k
            },
        }
    }


    /// Drop empty workspaces that are not on any monitor (the dynamic
    /// policy). The focused one and every desk on screen always survive.
    fn prune_empty(&mut self)
        requires
            old(self).wf(),
        ensures
            final(self).wf(),
            final(self).list@ == old(self).list@.filter(keeps(old(self).active, old(self).shown_spec())),
            final(self).active == old(self).active,
            final(self).previous == old(self).previous,
            final(self).shown@ == old(self).shown@,
            final(self).scratchpad@ == old(self).scratchpad@,
            old(self).room() ==> final(self).room(),
    {
        let ghost l0 = self.list@;
        let ghost pred = keeps(self.active, self.shown_spec());
        proof {
            assert(l0.len() == self.list.len());
        }
        let mut rest: Vec<Workspace> = Vec::new();
        std::mem::swap(&mut rest, &mut self.list);
        let mut i: usize = 0;
        proof {
            reveal_with_fuel(Seq::filter, 1);
            assert(l0.take(0).filter(pred) =~= Seq::<Workspace>::empty());
            assert(rest@ =~= l0.skip(0));
        }
        while rest.len() > 0
            invariant
                i <= l0.len(),
                l0.len() <= usize::MAX,
                rest@ == l0.skip(i as int),
                self.list@ == l0.take(i as int).filter(pred),
                l0 == old(self).list@,
                pred == keeps(old(self).active, old(self).shown_spec()),
                sorted_ids(l0),
                sorted_ids(self.list@),
                i < l0.len() ==> forall|j: int| 0 <= j < self.list@.len() ==> (#[trigger] self.list@[j]).id
                    < l0[i as int].id,
                forall|j: int| 0 <= j < l0.len() ==> (#[trigger] l0[j]).wf(),
                self.active == old(self).active,
                self.previous == old(self).previous,
                self.shown@ == old(self).shown@,
                self.scratchpad@ == old(self).scratchpad@,
            decreases rest.len(),
        {
            proof {
                assert(rest@.len() == l0.len() - i);
                assert(i < l0.len());
            }
            let ws = rest.remove(0);
            proof {
                assert(ws == l0[i as int]);
                lemma_filter_take_step(l0, i as int, pred);
                assert(l0.skip(i as int).drop_first() =~= l0.skip(i + 1));
            }
            let keep = ws.id == self.active || self.is_shown(ws.id) || !ws.is_empty();
            proof {
                assert(self.shown_spec() == old(self).shown_spec());
                assert(self.is_shown_spec(ws.id) == (exists|k: int|
                    0 <= k < old(self).shown_spec().len() && (#[trigger] old(self).shown_spec()[k]).1
                        == ws.id));
                assert(keep == pred(ws));
            }
            if keep {
                self.list.push(ws);
            }
            proof {
                assert(l0.skip(i as int).len() == l0.len() - i);
            }
            i += 1;
            proof {
                if i < l0.len() {
                    assert(l0[i - 1].id < l0[i as int].id);
                }
            }
        }
        proof {
            assert(l0.take(i as int) =~= l0);
            let f = self.list@;
            assert forall|j: int| 0 <= j < f.len() implies (#[trigger] f[j]).wf() by {
                l0.lemma_filter_contains_rev(pred, f[j]);
            }
            lemma_pos_of(l0, self.active);
            lemma_filter_keeps(l0, pred, self.active);
            assert forall|k: int| 0 <= k < self.shown@.len() implies has_id(
                self.list@,
                (#[trigger] self.shown@[k]).1,
            ) by {
                let x = self.shown@[k].1;
                assert(has_id(l0, x));
                lemma_pos_of(l0, x);
                assert(old(self).shown_spec()[k].1 == x);
                lemma_filter_keeps(l0, pred, x);
            }
            if old(self).room() {
                assert forall|j: int| 0 <= j < f.len() implies (#[trigger] f[j]).tree.windows_spec().len()
                    + f[j].stacks@.len() + 1 <= WINDOW_LIMIT by {
                    l0.lemma_filter_contains_rev(pred, f[j]);
                }
            }
        }
    }


    /// Index of the first entry for monitor `o`.
    fn output_pos(&self, o: &str) -> (r: Option<usize>)
        ensures
            r matches Some(i) ==> output_index(self.shown_spec(), o@) == Some(i as int),
            r is None ==> output_index(self.shown_spec(), o@) is None,
    {
        proof {
            lemma_output_index(self.shown_spec(), o@);
        }
        let mut i: usize = 0;
        while i < self.shown.len()
            invariant
                i <= self.shown@.len(),
                self.shown_spec().len() == self.shown@.len(),
                forall|j: int| 0 <= j < i ==> (#[trigger] self.shown_spec()[j]).0 != o@,
            decreases self.shown.len() - i,
        {
            if crate::text::str_eq(self.shown[i].0.as_str(), o) {
                proof {
                    let sh = self.shown_spec();
                    lemma_output_index(sh, o@);
                    assert(sh[i as int].0 == o@);
                    if let Some(i2) = output_index(sh, o@) {
                        if i2 < i {
                            assert(sh[i2].0 != o@);
                        } else if i2 > i {
                            assert(sh[i as int].0 != o@);
                        }
                    } else {
                        assert(sh[i as int].0 != o@);
                    }
                }
                return Some(i);
            }
            i += 1;
        }
        proof {
            if let Some(i2) = output_index(self.shown_spec(), o@) {
                assert(self.shown_spec()[i2].0 != o@);
            }
        }
        None
    }

    /// What `switch_to(id)` makes of `old`: `new`, with `hidden` the windows
    /// to unmap.
    pub open spec fn switched(old: Workspaces, new: Workspaces, id: u32, hidden: Seq<u32>) -> bool {
        &&& new.wf()
        &&& new.active_spec() == id
        &&& has_id(new.list_spec(), id)
        &&& id == old.active_spec() ==> {
            &&& hidden.len() == 0
            &&& new.list_spec() == old.list_spec()
            &&& new.shown_spec() == old.shown_spec()
            &&& new.previous_spec() == old.previous_spec()
        }
        &&& id != old.active_spec() ==> {
            &&& new.previous_spec() == old.active_spec()
            &&& new.is_shown_spec(id)
        }
        &&& id != old.active_spec() && old.is_shown_spec(id) ==> {
            &&& hidden.len() == 0
            &&& new.list_spec() == old.list_spec()
            &&& new.shown_spec() == old.shown_spec()
        }
        &&& id != old.active_spec() && !old.is_shown_spec(id) ==> {
            &&& hidden == old.active_ws().windows_spec()
            &&& new.shown_spec() == switched_shown(
                old.shown_spec(),
                old.active_ws().output@,
                id,
            )
            &&& new.active_ws().output@ == old.active_ws().output@
            &&& has_id(old.list_spec(), id) ==> {
                &&& new.active_ws().tree == old.get_spec(id)->0.tree
                &&& new.active_ws().floating == old.get_spec(id)->0.floating
                &&& new.active_ws().stacks == old.get_spec(id)->0.stacks
            }
            &&& !has_id(old.list_spec(), id) ==> new.active_ws().is_empty_spec()
            &&& has_id(old.list_spec(), id) ==> new.active_ws() == Workspace {
                output: new.active_ws().output,
                ..old.get_spec(id)->0
            }
            &&& forall|x: u32|
                #![trigger has_id(new.list_spec(), x)]
                #![trigger has_id(old.list_spec(), x)]
                x != id ==> (has_id(new.list_spec(), x) <==> has_id(old.list_spec(), x) && keeps(
                    id,
                    new.shown_spec(),
                )(old.get_spec(x)->0))
            &&& forall|x: u32| #[trigger]
                has_id(new.list_spec(), x) && x != id ==> new.get_spec(x) == old.get_spec(x)
        }
        &&& new.scratchpad_spec() == old.scratchpad_spec()
        &&& old.room() ==> new.room()
    }

    /// Switch the focused monitor to desk `id`, creating it if needed. Returns
    /// the windows to hide (those of the desk this monitor was showing). A
    /// desk already on screen on another monitor is not stolen: focus just
    /// moves to that monitor.
    pub fn switch_to(&mut self, id: u32) -> (r: Vec<u32>)
        requires
            old(self).wf(),
        ensures
            Workspaces::switched(*old(self), *final(self), id, r@),
    {
        proof {
            lemma_pos_of(self.list@, self.active);
        }
        if id == self.active {
            return Vec::new();
        }
        if self.is_shown(id) {
            proof {
                let j = choose|j: int|
                    0 <= j < self.shown_spec().len() && (#[trigger] self.shown_spec()[j]).1 == id;
                assert(self.shown@[j].1 == id);
                assert(has_id(self.list@, id));
            }
            self.previous = self.active;
            self.active = id;
            proof {
                let j = choose|j: int|
                    0 <= j < old(self).shown_spec().len() && (#[trigger] old(self).shown_spec()[j]).1 == id;
                assert(self.shown_spec()[j].1 == id);
            }
            return Vec::new();
        }
        let out = self.focused_output().to_owned();
        let hidden = self.active_ref().windows();
        let ghost old_target = self.get_spec(id);
        let k = self.ensure(id);
        let ghost w_ens = *self;
        let ghost before_set = self.list@;
        let out2 = out.clone();
        self.list[k].output = out2;
        proof {
            assert(self.list@ == before_set.update(k as int, self.list@[k as int]));
            assert(sorted_ids(self.list@)) by {
                assert forall|a: int, b: int| 0 <= a < b < self.list@.len() implies (#[trigger] self.list@[a]).id
                    < (#[trigger] self.list@[b]).id by {
                    assert(before_set[a].id < before_set[b].id);
                }
            }
            assert forall|x: u32| #[trigger] has_id(self.list@, x) <==> has_id(before_set, x) by {
                if has_id(before_set, x) {
                    let j = choose|j: int| 0 <= j < before_set.len() && (#[trigger] before_set[j]).id == x;
                    assert(self.list@[j].id == x);
                }
                if has_id(self.list@, x) {
                    let j = choose|j: int| 0 <= j < self.list@.len() && (#[trigger] self.list@[j]).id == x;
                    assert(before_set[j].id == x);
                }
            }
            lemma_pos_of(self.list@, id);
        }
        let ghost shown0 = self.shown_spec();
        let ghost outv = out@;
        let pos = self.output_pos(out.as_str());
        let ghost wi: int = match pos {
            Some(i) => i as int,
            None => shown0.len() as int,
        };
        proof {
            lemma_output_index(shown0, outv);
        }
        let ghost shown_raw = self.shown@;
        match pos {
            Some(i) => {
                self.shown.set(i, (out, id));
                proof {
                    assert(self.shown_spec() =~= shown0.update(i as int, (outv, id)));
                    assert(self.shown_spec()[i as int].1 == id);
                }
            },
            None => {
                self.shown.push((out, id));
                proof {
                    assert(self.shown_spec() =~= shown0.push((outv, id)));
                    assert(self.shown_spec()[shown0.len() as int].1 == id);
                }
            },
        }
        proof {
            assert(self.shown_spec() == switched_shown(shown0, outv, id));
            assert(self.shown_spec().len() == self.shown@.len());
            assert forall|j: int| 0 <= j < self.shown@.len() implies has_id(
                self.list@,
                (#[trigger] self.shown@[j]).1,
            ) by {
                if self.shown@[j].1 != id {
                    assert(shown0.len() == shown_raw.len());
                    assert(self.shown_spec()[j].1 == self.shown@[j].1);
                    assert(shown0[j].1 == self.shown@[j].1);
                    assert(shown_raw[j].1 == self.shown@[j].1);
                    assert(has_id(before_set, shown_raw[j].1));
                }
            }
            assert forall|j: int| 0 <= j < self.list@.len() implies (#[trigger] self.list@[j]).wf() by {
                assert(before_set[j].wf());
            }

        }
        let ghost pre = self.list@;
        let ghost pre_shown = self.shown_spec();
        self.previous = self.active;
        self.active = id;
        self.prune_empty();
        proof {
            assert(self.shown_spec() == pre_shown);
            assert(self.shown_spec()[wi].1 == id);
            lemma_pos_of(pre, id);
            assert(pre[pos_of(pre, id)] == pre[k as int]);
            lemma_filter_keeps(pre, keeps(id, pre_shown), id);
            lemma_pos_of(self.list@, id);
            if old(self).room() {
                assert forall|j: int| 0 <= j < pre.len() implies (#[trigger] pre[j]).tree.windows_spec().len()
                    + pre[j].stacks@.len() + 1 <= WINDOW_LIMIT by {
                    assert(pre[j].tree == before_set[j].tree);
                    assert(pre[j].stacks == before_set[j].stacks);
                }
            }
            if has_id(old(self).list@, id) {
                lemma_pos_of(old(self).list@, id);
                assert(before_set[k as int] == old(self).list@[pos_of(old(self).list@, id)]);
            }
            assert(pre[k as int] == Workspace { output: pre[k as int].output, ..before_set[k as int] });
            Workspaces::lemma_switch_rest(*old(self), w_ens, pre, *self, id, k as int);
        }
        hidden
    }


    /// The desks other than the target after a switch: those kept by the
    /// pruning, unchanged.
    proof fn lemma_switch_rest(w0: Workspaces, w1: Workspaces, pre: Seq<Workspace>, w2: Workspaces, id: u32, k: int)
        requires
            w0.wf(),
            w1.wf(),
            sorted_ids(w2.list@),
            forall|x: u32| #[trigger] has_id(w1.list@, x) <==> has_id(w0.list@, x) || x == id,
            forall|x: u32| has_id(w0.list@, x) ==> #[trigger] w1.get_spec(x) == w0.get_spec(x),
            0 <= k < w1.list@.len(),
            w1.list@[k].id == id,
            pre.len() == w1.list@.len(),
            forall|j: int| 0 <= j < pre.len() && j != k ==> #[trigger] pre[j] == w1.list@[j],
            pre[k] == (Workspace { output: pre[k].output, ..w1.list@[k] }),
            w2.list@ == pre.filter(keeps(id, w2.shown_spec())),
            has_id(w2.list@, id),
        ensures
            has_id(w0.list_spec(), id) ==> w2.get_spec(id)->0 == (Workspace {
                output: w2.get_spec(id)->0.output,
                ..w0.get_spec(id)->0
            }),
            forall|x: u32|
                #![trigger has_id(w2.list_spec(), x)]
                #![trigger has_id(w0.list_spec(), x)]
                x != id ==> (has_id(w2.list_spec(), x) <==> has_id(w0.list_spec(), x) && keeps(
                    id,
                    w2.shown_spec(),
                )(w0.get_spec(x)->0)),
            forall|x: u32| #[trigger]
                has_id(w2.list_spec(), x) && x != id ==> w2.get_spec(x) == w0.get_spec(x),
    {
        let pred = keeps(id, w2.shown_spec());
        let l1 = w1.list@;
        lemma_pos_of(l1, id);
        assert forall|j: int| 0 <= j < l1.len() implies (#[trigger] l1[j]).id == pre[j].id by {
            if j != k {
                assert(pre[j] == l1[j]);
            }
        }
        lemma_same_ids(l1, pre);
        lemma_filter_get(pre, pred, id);
        lemma_pos_of(pre, id);
        if has_id(w0.list@, id) {
            assert(w1.get_spec(id) == w0.get_spec(id));
        }
        assert forall|x: u32| #[trigger] has_id(w2.list_spec(), x) && x != id implies w2.get_spec(x)
            == w0.get_spec(x) && pred(w0.get_spec(x)->0) by {
            lemma_filter_get(pre, pred, x);
            lemma_pos_of(pre, x);
            let p = pos_of(pre, x);
            assert(p != k);
            assert(pre[p] == l1[p]);
            assert(has_id(w0.list@, x));
            assert(w1.get_spec(x) == w0.get_spec(x));
            let f = pre.filter(pred);
            lemma_pos_of(f, x);
            pre.lemma_filter_pred(pred, pos_of(f, x));
        }
        assert forall|x: u32|
            #![trigger has_id(w2.list_spec(), x)]
            #![trigger has_id(w0.list_spec(), x)]
            x != id implies (has_id(w2.list_spec(), x) <==> has_id(w0.list_spec(), x) && pred(
                w0.get_spec(x)->0,
            )) by {
            if has_id(w0.list_spec(), x) && pred(w0.get_spec(x)->0) {
                assert(has_id(l1, x));
                lemma_pos_of(l1, x);
                let p = pos_of(l1, x);
                assert(p != k);
                assert(w1.get_spec(x) == w0.get_spec(x));
                assert(pre[p] == l1[p]);
                lemma_filter_keeps(pre, pred, x);
            }
            if has_id(w2.list_spec(), x) {
                assert(w2.get_spec(x) == w0.get_spec(x) && pred(w0.get_spec(x)->0));
                lemma_filter_has(pre, pred, x);
            }
        }
    }

    /// The smallest id at least `from` that no desk uses.
    fn smallest_free(&self, from: u32) -> (r: u32)
        requires
            sorted_ids(self.list@),
            from as int + self.list@.len() < u32::MAX,
        ensures
            is_smallest_free(self.list@, from as int, r as int),
    {
        let mut c: u64 = from as u64;
        let mut j: usize = 0;
        while j < self.list.len() && (self.list[j].id as u64) <= c
            invariant
                j <= self.list@.len(),
                sorted_ids(self.list@),
                from as int + self.list@.len() < u32::MAX,
                from <= c <= from as int + j,
                forall|k: int| from <= k < c ==> #[trigger] has_id(self.list@, k as u32),
                forall|i: int| 0 <= i < j ==> (#[trigger] self.list@[i]).id < c,
            decreases self.list.len() - j,
        {
            if self.list[j].id as u64 == c {
                proof {
                    assert forall|k: int| from <= k < c + 1 implies #[trigger] has_id(
                        self.list@,
                        k as u32,
                    ) by {
                        if k == c {
                            assert(self.list@[j as int].id == k as u32);
                        }
                    }
                }
                c = c + 1;
            }
            j += 1;
        }
        proof {
            if has_id(self.list@, c as u32) {
                let i = choose|i: int| 0 <= i < self.list@.len() && (#[trigger] self.list@[i]).id == c as u32;
                if i < j {
                    assert(self.list@[i].id < c);
                } else {
                    assert(self.list@[j as int].id > c);
                    if i > j {
                        assert(self.list@[j as int].id < self.list@[i].id);
                    }
                }
            }
        }
        c as u32
    }

    /// Desk `id` (created on demand) now belongs to monitor `out`.
    fn claim(&mut self, id: u32, out: String)
        requires
            old(self).wf(),
        ensures
            final(self).wf(),
            has_id(final(self).list@, id),
            final(self).get_spec(id)->0.output@ == out@,
            has_id(old(self).list@, id) ==> {
                &&& final(self).get_spec(id)->0.tree == old(self).get_spec(id)->0.tree
                &&& final(self).get_spec(id)->0.floating == old(self).get_spec(id)->0.floating
                &&& final(self).get_spec(id)->0.stacks == old(self).get_spec(id)->0.stacks
            },
            !has_id(old(self).list@, id) ==> final(self).get_spec(id)->0.is_empty_spec(),
            forall|x: u32| #[trigger] has_id(final(self).list@, x) <==> has_id(old(self).list@, x) || x == id,
            forall|x: u32|
                has_id(old(self).list@, x) && x != id ==> #[trigger] final(self).get_spec(x) == old(
                    self).get_spec(x),
            final(self).active == old(self).active,
            final(self).previous == old(self).previous,
            final(self).shown@ == old(self).shown@,
            final(self).scratchpad@ == old(self).scratchpad@,
            old(self).room() ==> final(self).room(),
    {
        let k = self.ensure(id);
        let ghost mid = *self;
        let ghost before_set = self.list@;
        self.list[k].output = out;
        proof {
            assert(self.list@ == before_set.update(k as int, self.list@[k as int]));
            assert(sorted_ids(self.list@)) by {
                assert forall|a: int, b: int| 0 <= a < b < self.list@.len() implies (#[trigger] self.list@[a]).id
                    < (#[trigger] self.list@[b]).id by {
                    assert(before_set[a].id < before_set[b].id);
                }
            }
            assert forall|x: u32| #[trigger] has_id(self.list@, x) <==> has_id(before_set, x) by {
                if has_id(before_set, x) {
                    let j = choose|j: int| 0 <= j < before_set.len() && (#[trigger] before_set[j]).id == x;
                    assert(self.list@[j].id == x);
                }
                if has_id(self.list@, x) {
                    let j = choose|j: int| 0 <= j < self.list@.len() && (#[trigger] self.list@[j]).id == x;
                    assert(before_set[j].id == x);
                }
            }
            lemma_pos_of(self.list@, id);
            assert forall|j: int| 0 <= j < self.list@.len() implies (#[trigger] self.list@[j]).wf() by {
                assert(before_set[j].wf());
            }
            assert forall|j: int| 0 <= j < self.shown@.len() implies has_id(
                self.list@,
                (#[trigger] self.shown@[j]).1,
            ) by {
                assert(has_id(before_set, self.shown@[j].1));
            }
            assert(has_id(before_set, self.active));
            assert forall|x: u32| has_id(old(self).list@, x) && x != id implies #[trigger] self.get_spec(x)
                == old(self).get_spec(x) by {
                assert(mid.get_spec(x) == old(self).get_spec(x));
                assert(has_id(before_set, x));
                lemma_pos_of(before_set, x);
                lemma_pos_of(self.list@, x);
                assert(pos_of(self.list@, x) == pos_of(before_set, x));
                assert(pos_of(before_set, x) != k);
            }
            if old(self).room() {
                assert forall|j: int| 0 <= j < self.list@.len() implies (#[trigger] self.list@[j]).tree.windows_spec().len()
                    + self.list@[j].stacks@.len() + 1 <= WINDOW_LIMIT by {
                    assert(self.list@[j].tree == before_set[j].tree);
                    assert(self.list@[j].stacks == before_set[j].stacks);
                }
            }
            if has_id(old(self).list@, id) {
                lemma_pos_of(old(self).list@, id);
                assert(before_set[k as int] == old(self).list@[pos_of(old(self).list@, id)]);
            }
        }
    }

    /// The desk a newly plugged monitor `output` gets.
    /// The first off-screen desk owned by `output` (`owned`) or never placed.
    fn first_claimable(&self, output: &str, owned: bool) -> (r: Option<u32>)
        requires
            self.wf(),
        ensures
            r == first_reclaimable(self.list@, self.shown_spec(), output@, owned),
            r matches Some(id) ==> has_id(self.list@, id),
    {
        proof {
            lemma_first_reclaimable_has(self.list@, self.shown_spec(), output@, owned);
        }
        let mut i: usize = 0;
        proof {
            assert(self.list@.skip(0) =~= self.list@);
        }
        while i < self.list.len()
            invariant
                i <= self.list@.len(),
                first_reclaimable(self.list@.skip(i as int), self.shown_spec(), output@, owned)
                    == first_reclaimable(self.list@, self.shown_spec(), output@, owned),
            decreases self.list.len() - i,
        {
            let id = self.list[i].id;
            let mine = if owned {
                crate::text::str_eq(self.list[i].output.as_str(), output)
            } else {
                self.list[i].output.as_str().is_empty()
            };
            let ok = !self.is_shown(id) && mine;
            proof {
                let w = self.list@[i as int];
                assert(self.list@.skip(i as int)[0] == w);
                assert(self.list@.skip(i as int).drop_first() =~= self.list@.skip(i + 1));
                assert(self.is_shown_spec(id) == (exists|k: int|
                    0 <= k < self.shown_spec().len() && (#[trigger] self.shown_spec()[k]).1 == w.id));
                assert(ok == reclaimable(w, self.shown_spec(), output@, owned));
            }
            if ok {
                return Some(id);
            }
            i += 1;
        }
        proof {
            assert(self.list@.skip(i as int).len() == 0);
        }
        None
    }

    fn pick_for(&self, output: &str) -> (r: u32)
        requires
            self.wf(),
            self.list@.len() + 2 < u32::MAX,
        ensures
            r == output_pick(self.list@, self.shown_spec(), output@),
            first_reclaimable(self.list@, self.shown_spec(), output@, true) matches Some(id) ==> has_id(self.list@, id),
            first_reclaimable(self.list@, self.shown_spec(), output@, false) matches Some(id) ==> has_id(self.list@, id),
    {
        proof {
            lemma_first_reclaimable_has(self.list@, self.shown_spec(), output@, true);
            lemma_first_reclaimable_has(self.list@, self.shown_spec(), output@, false);
        }
        if let Some(id) = self.first_claimable(output, true) {
            return id;
        }
        if let Some(id) = self.first_claimable(output, false) {
            return id;
        }
        let c = self.smallest_free(1);
        proof {
            let c2 = choose|id: int| is_smallest_free(self.list@, 1, id);
            lemma_smallest_free_unique(self.list@, 1, c2, c as int);
        }
        c
    }

    /// A monitor appeared: give it a desk. It gets back the lowest desk it
    /// owned before (a reconnect), else an unplaced desk (desk 1 on first
    /// boot), else the lowest free number. The first monitor, or one plugged
    /// while the focused desk is unplaced or off screen, takes focus.
    pub fn output_added(&mut self, output: &str)
        requires
            old(self).wf(),
            old(self).list_spec().len() + 2 < u32::MAX,
        ensures
            final(self).wf(),
            final(self).previous_spec() == old(self).previous_spec(),
            final(self).scratchpad_spec() == old(self).scratchpad_spec(),
            old(self).room() ==> final(self).room(),
            shown_on_spec(old(self).shown_spec(), output@) is Some ==> {
                &&& final(self).list_spec() == old(self).list_spec()
                &&& final(self).shown_spec() == old(self).shown_spec()
                &&& final(self).active_spec() == old(self).active_spec()
            },
            shown_on_spec(old(self).shown_spec(), output@) is None ==> ({
                let pick = output_pick(old(self).list_spec(), old(self).shown_spec(), output@);
                &&& final(self).shown_spec() == old(self).shown_spec().push((output@, pick))
                &&& has_id(final(self).list_spec(), pick)
                &&& final(self).get_spec(pick)->0.output@ == output@
                &&& has_id(old(self).list_spec(), pick) ==> {
                    &&& final(self).get_spec(pick)->0.tree == old(self).get_spec(pick)->0.tree
                    &&& final(self).get_spec(pick)->0.floating == old(self).get_spec(pick)->0.floating
                    &&& final(self).get_spec(pick)->0.stacks == old(self).get_spec(pick)->0.stacks
                }
                &&& !has_id(old(self).list_spec(), pick) ==> final(self).get_spec(
                    pick,
                )->0.is_empty_spec()
                &&& final(self).active_spec() == if (old(self).active_spec() != pick && old(
                    self).active_ws().output@.len() == 0) || (old(self).active_spec() != pick
                    && !old(self).is_shown_spec(old(self).active_spec())) {
                    pick
                } else {
                    old(self).active_spec()
                }
            }),
    {
        if self.shown_on(output).is_some() {
            return;
        }
        let pick = self.pick_for(output);
        proof {
            lemma_pos_of(self.list@, self.active);
        }
        self.claim(pick, output.to_owned());
        let ghost after_claim = *self;
        let ghost shown0 = self.shown_spec();
        let ghost shown_raw = self.shown@;
        let ghost l1 = self.list@;
        self.shown.push((output.to_owned(), pick));
        proof {
            assert(self.shown_spec() =~= shown0.push((output@, pick)));
            assert forall|j: int| 0 <= j < self.shown@.len() implies has_id(
                self.list@,
                (#[trigger] self.shown@[j]).1,
            ) by {
                if j < shown_raw.len() {
                    assert(self.shown@[j] == shown_raw[j]);
                }
            }
            assert(self.shown_spec()[shown0.len() as int].1 == pick);
            assert(self.is_shown_spec(self.active) == (old(self).is_shown_spec(self.active)
                || self.active == pick)) by {
                if old(self).is_shown_spec(self.active) {
                    let j = choose|j: int| 0 <= j < shown0.len() && (#[trigger] shown0[j]).1 == self.active;
                    assert(self.shown_spec()[j].1 == self.active);
                }
                if self.is_shown_spec(self.active) && self.active != pick {
                    let j = choose|j: int|
                        0 <= j < self.shown_spec().len() && (#[trigger] self.shown_spec()[j]).1
                            == self.active;
                    assert(shown0[j].1 == self.active);
                }
            }
            lemma_pos_of(self.list@, self.active);
            if self.active != pick {
                assert(after_claim.get_spec(self.active) == old(self).get_spec(self.active));
                assert(self.list@ == after_claim.list@);
                assert(self.get_spec(self.active) == old(self).get_spec(self.active));
            }
        }
        let unplaced = self.active_ref().output.as_str().is_empty();
        if unplaced || !self.is_shown(self.active) {
            self.active = pick;
        }
    }

    /// A monitor went away: its desk goes off screen (it keeps remembering
    /// the monitor, so a reconnect brings it back). Returns that desk's
    /// windows, which the caller unmaps.
    pub fn output_removed(&mut self, output: &str) -> (r: Vec<u32>)
        requires
            old(self).wf(),
        ensures
            final(self).wf(),
            final(self).list_spec() == old(self).list_spec(),
            final(self).previous_spec() == old(self).previous_spec(),
            final(self).scratchpad_spec() == old(self).scratchpad_spec(),
            output_index(old(self).shown_spec(), output@) is None ==> {
                &&& r@.len() == 0
                &&& final(self).shown_spec() == old(self).shown_spec()
                &&& final(self).active_spec() == old(self).active_spec()
            },
            output_index(old(self).shown_spec(), output@) matches Some(i) ==> ({
                let id = old(self).shown_spec()[i].1;
                &&& r@ == old(self).get_spec(id)->0.windows_spec()
                &&& final(self).shown_spec() == old(self).shown_spec().remove(i)
                &&& final(self).active_spec() == if old(self).active_spec() == id && final(
                    self).shown_spec().len() > 0 {
                    final(self).shown_spec()[0].1
                } else {
                    old(self).active_spec()
                }
            }),
            old(self).room() ==> final(self).room(),
    {
        let pos = self.output_pos(output);
        proof {
            lemma_output_index(self.shown_spec(), output@);
        }
        match pos {
            None => Vec::new(),
            Some(i) => {
                let ghost shown0 = self.shown_spec();
                let ghost raw0 = self.shown@;
                let entry = self.shown.remove(i);
                let id = entry.1;
                proof {
                    assert(self.shown_spec() =~= shown0.remove(i as int));
                    assert(shown0[i as int].1 == id);
                    assert(has_id(self.list@, raw0[i as int].1));
                    assert forall|j: int| 0 <= j < self.shown@.len() implies has_id(
                        self.list@,
                        (#[trigger] self.shown@[j]).1,
                    ) by {
                        if j < i {
                            assert(self.shown@[j] == raw0[j]);
                        } else {
                            assert(self.shown@[j] == raw0[j + 1]);
                        }
                    }
                }
                let hidden = match self.get(id) {
                    Some(w) => w.windows(),
                    None => Vec::new(),
                };
                if self.active == id {
                    if self.shown.len() > 0 {
                        proof {
                            assert(has_id(self.list@, self.shown@[0].1));
                            assert(self.shown_spec()[0].1 == self.shown@[0].1);
                        }
                        self.active = self.shown[0].1;
                    }
                }
                hidden
            },
        }
    }

    /// `r` is the desk `adjacent_id(forward)` gives on `ws`.
    pub open spec fn adjacent_ok(ws: Workspaces, forward: bool, r: Option<u32>) -> bool {
            let o = ws.active_ws().output@;
            let a = ws.active_spec();
            let l = ws.list_spec();
            if forward {
                if exists|i: int| 0 <= i < l.len() && (#[trigger] l[i]).id > a && l[i].output@ == o {
                    r matches Some(x) && x > a && (exists|i: int|
                        0 <= i < l.len() && (#[trigger] l[i]).id == x && l[i].output@ == o) && forall|j: int|
                        0 <= j < l.len() && (#[trigger] l[j]).output@ == o && l[j].id > a ==> l[j].id >= x
                } else if !ws.active_ws().is_empty_spec() {
                    r matches Some(x) && is_smallest_free(l, a + 1, x as int)
                } else {
                    r is None
                }
            } else {
                if exists|i: int| 0 <= i < l.len() && (#[trigger] l[i]).id < a && l[i].output@ == o {
                    r matches Some(x) && x < a && (exists|i: int|
                        0 <= i < l.len() && (#[trigger] l[i]).id == x && l[i].output@ == o) && forall|j: int|
                        0 <= j < l.len() && (#[trigger] l[j]).output@ == o && l[j].id < a ==> l[j].id <= x
                } else {
                    r is None
                }
            }
        }

    /// Adjacent desk on the focused monitor (workspace next/prev): the next
    /// higher (or lower) desk id on that monitor. Going forward past the last
    /// spawns a fresh desk number, unless the current desk is empty.
    pub fn adjacent_id(&self, forward: bool) -> (r: Option<u32>)
        requires
            self.wf(),
            forward ==> self.active_spec() + self.list_spec().len() + 1 < u32::MAX,
        ensures
            Workspaces::adjacent_ok(*self, forward, r),
    {
        proof {
            lemma_pos_of(self.list@, self.active);
        }
        let out = self.focused_output();
        let ghost o = self.active_ws().output@;
        let mut best: Option<u32> = None;
        let mut i: usize = 0;
        while i < self.list.len()
            invariant
                i <= self.list@.len(),
                out@ == o,
                sorted_ids(self.list@),
                forward ==> best is None ==> forall|j: int|
                    0 <= j < i ==> !((#[trigger] self.list@[j]).id > self.active && self.list@[j].output@ == o),
                forward ==> (best matches Some(x) ==> x > self.active && (exists|k: int|
                    0 <= k < i && (#[trigger] self.list@[k]).id == x && self.list@[k].output@ == o)
                    && forall|j: int|
                    0 <= j < self.list@.len() && (#[trigger] self.list@[j]).output@ == o
                        && self.list@[j].id > self.active ==> self.list@[j].id >= x),
                !forward ==> best is None ==> forall|j: int|
                    0 <= j < i ==> !((#[trigger] self.list@[j]).id < self.active && self.list@[j].output@ == o),
                !forward ==> (best matches Some(x) ==> x < self.active && (exists|k: int|
                    0 <= k < i && (#[trigger] self.list@[k]).id == x && self.list@[k].output@ == o)
                    && forall|j: int|
                    0 <= j < i && (#[trigger] self.list@[j]).output@ == o && self.list@[j].id < self.active
                        ==> self.list@[j].id <= x),
            decreases self.list.len() - i,
        {
            let id = self.list[i].id;
            if crate::text::str_eq(self.list[i].output.as_str(), out) {
                if forward {
                    if id > self.active && best.is_none() {
                        proof {
                            assert forall|j: int|
                                0 <= j < self.list@.len() && (#[trigger] self.list@[j]).output@ == o
                                    && self.list@[j].id > self.active implies self.list@[j].id >= id by {
                                if j < i {
                                } else if j > i {
                                    assert(self.list@[i as int].id < self.list@[j].id);
                                }
                            }
                        }
                        best = Some(id);
                    }
                } else {
                    if id < self.active {
                        proof {
                            assert forall|j: int|
                                0 <= j < i + 1 && (#[trigger] self.list@[j]).output@ == o
                                    && self.list@[j].id < self.active implies self.list@[j].id <= id by {
                                if j < i {
                                    assert(self.list@[j].id < self.list@[i as int].id);
                                }
                            }
                        }
                        best = Some(id);
                    }
                }
            }
            i += 1;
        }
        if best.is_some() {
            return best;
        }
        if forward && !self.active_ref().is_empty() {
            // a fresh number nobody, on any monitor, is using
            return Some(self.smallest_free(self.active + 1));
        }
        None
    }


    /// Remove `window` from every desk (or only from those owning it).
    fn remove_from_desks(&mut self, window: u32, live: &Vec<u32>, only_owners: bool)
        requires
            old(self).wf(),
            old(self).room(),
        ensures
            final(self).wf(),
            final(self).list@.len() == old(self).list@.len(),
            forall|i: int|
                0 <= i < final(self).list@.len() ==> {
                    &&& (#[trigger] final(self).list@[i]).id == old(self).list@[i].id
                    &&& !final(self).list@[i].contains_spec(window)
                    &&& final(self).list@[i].tree.windows_spec().len() + 1 <= WINDOW_LIMIT
                    &&& final(self).list@[i].output@ == old(self).list@[i].output@
                    &&& (only_owners && !old(self).list@[i].contains_spec(window)) ==> final(
                        self).list@[i] == old(self).list@[i]
                    &&& (!only_owners || old(self).list@[i].contains_spec(window))
                        ==> Workspace::removed_from(old(self).list@[i], final(self).list@[i], window, live@)
                },
            forall|x: u32| #[trigger] has_id(final(self).list@, x) == has_id(old(self).list@, x),
            final(self).active == old(self).active,
            final(self).previous == old(self).previous,
            final(self).shown@ == old(self).shown@,
            final(self).scratchpad@ == old(self).scratchpad@,
    {
        let mut i: usize = 0;
        while i < self.list.len()
            invariant
                i <= self.list@.len(),
                self.list@.len() == old(self).list@.len(),
                forall|j: int|
                    0 <= j < self.list@.len() ==> {
                        &&& (#[trigger] self.list@[j]).id == old(self).list@[j].id
                        &&& self.list@[j].wf()
                        &&& self.list@[j].output@ == old(self).list@[j].output@
                    },
                forall|j: int|
                    0 <= j < i ==> {
                        &&& !(#[trigger] self.list@[j]).contains_spec(window)
                        &&& self.list@[j].tree.windows_spec().len() + 1 <= WINDOW_LIMIT
                        &&& (only_owners && !old(self).list@[j].contains_spec(window)) ==> self.list@[j]
                            == old(self).list@[j]
                        &&& (!only_owners || old(self).list@[j].contains_spec(window))
                            ==> Workspace::removed_from(old(self).list@[j], self.list@[j], window, live@)
                    },
                forall|j: int| i <= j < self.list@.len() ==> self.list@[j] == old(self).list@[j],
                old(self).room(),
                old(self).wf(),
                self.active == old(self).active,
                self.previous == old(self).previous,
                self.shown@ == old(self).shown@,
                self.scratchpad@ == old(self).scratchpad@,
            decreases self.list.len() - i,
        {
            let owns = self.list[i].contains(window);
            let ghost before = self.list@;
            proof {
                assert(old(self).list@[i as int].tree.windows_spec().len() + old(self).list@[i as int].stacks@.len()
                    + 1 <= WINDOW_LIMIT);
            }
            if !only_owners || owns {
                let ws = &mut self.list[i];
                ws.remove(window, live);
            }
            proof {
                assert forall|j: int| 0 <= j < self.list@.len() && j != i implies self.list@[j] == before[j] by {}
            }
            i += 1;
        }
        proof {
            assert(sorted_ids(self.list@)) by {
                assert forall|a: int, b: int| 0 <= a < b < self.list@.len() implies (#[trigger] self.list@[a]).id
                    < (#[trigger] self.list@[b]).id by {
                    assert(old(self).list@[a].id < old(self).list@[b].id);
                }
            }
            assert forall|x: u32| #[trigger] has_id(self.list@, x) == has_id(old(self).list@, x) by {
                if has_id(old(self).list@, x) {
                    let j = choose|j: int| 0 <= j < old(self).list@.len() && (#[trigger] old(self).list@[j]).id == x;
                    assert(self.list@[j].id == x);
                }
                if has_id(self.list@, x) {
                    let j = choose|j: int| 0 <= j < self.list@.len() && (#[trigger] self.list@[j]).id == x;
                    assert(old(self).list@[j].id == x);
                }
            }
            assert(has_id(self.list@, self.active));
            assert forall|j: int| 0 <= j < self.shown@.len() implies has_id(
                self.list@,
                (#[trigger] self.shown@[j]).1,
            ) by {
                assert(has_id(old(self).list@, self.shown@[j].1));
            }
        }
    }

    /// Remove a window from every desk's tree, floating layer and stacks
    /// (used by the shelf to detach a window before stashing or re-showing it).
    pub fn detach_everywhere(&mut self, window: u32, live: &Vec<u32>)
        requires
            old(self).wf(),
            old(self).room(),
        ensures
            final(self).wf(),
            !final(self).owns(window),
            forall|x: u32| #[trigger] has_id(final(self).list_spec(), x) == has_id(old(self).list_spec(), x),
            final(self).active_spec() == old(self).active_spec(),
            final(self).previous_spec() == old(self).previous_spec(),
            final(self).shown_spec() == old(self).shown_spec(),
            final(self).scratchpad_spec() == old(self).scratchpad_spec(),
            forall|id: u32| #[trigger]
                has_id(final(self).list_spec(), id) ==> Workspace::removed_from(
                    old(self).get_spec(id)->0,
                    final(self).get_spec(id)->0,
                    window,
                    live@,
                ),
    {
        self.remove_from_desks(window, live, false);
        proof {
            lemma_same_ids(old(self).list@, self.list@);
            assert forall|id: u32| #[trigger]
                has_id(self.list_spec(), id) implies Workspace::removed_from(
                    old(self).get_spec(id)->0,
                    self.get_spec(id)->0,
                    window,
                    live@,
                ) by {
                lemma_pos_of(old(self).list@, id);
            }
        }
    }

    /// What `remove_window(window)` makes of `old`: no desk holds the window
    /// any more; each remaining desk is its old self with the window removed;
    /// a desk that went away was left empty by the removal, and was neither
    /// focused nor on screen.
    pub open spec fn window_removed(old: Workspaces, new: Workspaces, window: u32, live: Seq<u32>) -> bool {
        &&& new.wf()
        &&& !new.owns(window)
        &&& find_spec(new.list_spec(), window) is None
        &&& forall|id: u32| #[trigger]
            has_id(new.list_spec(), id) ==> has_id(old.list_spec(), id) && Workspace::removed_from(
                old.get_spec(id)->0,
                new.get_spec(id)->0,
                window,
                live,
            )
        &&& forall|id: u32|
            #![trigger has_id(old.list_spec(), id)]
            has_id(old.list_spec(), id) && !has_id(new.list_spec(), id) ==> id != old.active_spec()
                && !old.is_shown_spec(id) && exists|d: Workspace|
                #[trigger] Workspace::removed_from(old.get_spec(id)->0, d, window, live)
                    && d.is_empty_spec()
        &&& new.active_spec() == old.active_spec()
        &&& new.previous_spec() == old.previous_spec()
        &&& new.shown_spec() == old.shown_spec()
        &&& new.scratchpad_spec() == old.scratchpad_spec()
    }

    /// Remove a window wherever it lives, then drop desks left empty and off
    /// screen.
    pub fn remove_window(&mut self, window: u32, live: &Vec<u32>)
        requires
            old(self).wf(),
            old(self).room(),
        ensures
            Workspaces::window_removed(*old(self), *final(self), window, live@),
    {
        self.remove_from_desks(window, live, false);
        let ghost mid = self.list@;
        let ghost pred = keeps(self.active, self.shown_spec());
        self.prune_empty();
        proof {
            assert forall|i: int| 0 <= i < self.list@.len() implies !(#[trigger] self.list@[i]).contains_spec(window) by {
                mid.lemma_filter_contains_rev(pred, self.list@[i]);
            }
            lemma_find_none(self.list@, window);
            assert forall|id: u32| #[trigger]
                has_id(self.list_spec(), id) implies has_id(old(self).list_spec(), id)
                    && Workspace::removed_from(
                    old(self).get_spec(id)->0,
                    self.get_spec(id)->0,
                    window,
                    live@,
                ) by {
                lemma_pos_of(self.list@, id);
                let e = self.list@[pos_of(self.list@, id)];
                mid.lemma_filter_contains_rev(pred, e);
                let k = choose|k: int| 0 <= k < mid.len() && mid[k] == e;
                assert(old(self).list@[k].id == id);
                assert(has_id(old(self).list@, id));
                lemma_pos_of(old(self).list@, id);
            }
            assert forall|id: u32|
                #![trigger has_id(old(self).list_spec(), id)]
                has_id(old(self).list_spec(), id) && !has_id(self.list_spec(), id) implies id
                    != old(self).active_spec() && !old(self).is_shown_spec(id) && exists|d: Workspace|
                    #[trigger] Workspace::removed_from(old(self).get_spec(id)->0, d, window, live@)
                        && d.is_empty_spec() by {
                lemma_pos_of(old(self).list@, id);
                let k = pos_of(old(self).list@, id);
                let d = mid[k];
                assert(d.id == id);
                if pred(d) {
                    mid.lemma_filter_contains(pred, k);
                    let j = choose|j: int| 0 <= j < self.list@.len() && self.list@[j] == d;
                    assert(self.list@[j].id == id);
                }
                assert(!pred(d));
                assert(Workspace::removed_from(old(self).get_spec(id)->0, d, window, live@));
                if old(self).is_shown_spec(id) {
                    let i = choose|i: int|
                        0 <= i < old(self).shown_spec().len() && (#[trigger] old(self).shown_spec()[i]).1 == id;
                    assert(self.shown_spec()[i].1 == id);
                }
            }
        }
    }

    /// What `move_window_to(window, id)` makes of `old`: desk `id` (created
    /// empty when missing) holds the window as its focused tile, after the
    /// desk that held it let it go; every other desk is unchanged but for
    /// letting the window go; a desk that went away was left empty that way
    /// and was neither focused nor on screen.
    pub open spec fn window_moved(old: Workspaces, new: Workspaces, window: u32, id: u32, live: Seq<u32>) -> bool {
        &&& new.wf()
        &&& find_spec(new.list_spec(), window) == Some(id)
        &&& has_id(new.list_spec(), id)
        &&& new.get_spec(id)->0.tree.windows_spec().contains(window)
        &&& has_id(old.list_spec(), id) ==> exists|d: Workspace|
            Workspace::left_by(old.get_spec(id)->0, d, window, live) && #[trigger] Workspace::tiled_in(
                d,
                new.get_spec(id)->0,
                window,
            )
        &&& !has_id(old.list_spec(), id) ==> exists|d: Workspace|
            d.is_empty_spec() && d.id == id && #[trigger] Workspace::tiled_in(
                d,
                new.get_spec(id)->0,
                window,
            )
        &&& forall|x: u32| #[trigger]
            has_id(new.list_spec(), x) && x != id ==> has_id(old.list_spec(), x) && Workspace::left_by(
                old.get_spec(x)->0,
                new.get_spec(x)->0,
                window,
                live,
            )
        &&& forall|x: u32|
            #![trigger has_id(old.list_spec(), x)]
            has_id(old.list_spec(), x) && !has_id(new.list_spec(), x) ==> x != id && x
                != old.active_spec() && !old.is_shown_spec(x) && exists|d: Workspace|
                #[trigger] Workspace::left_by(old.get_spec(x)->0, d, window, live) && d.is_empty_spec()
        &&& new.active_spec() == old.active_spec()
        &&& new.previous_spec() == old.previous_spec()
        &&& new.shown_spec() == old.shown_spec()
        &&& new.scratchpad_spec() == old.scratchpad_spec()
    }

    pub fn move_window_to(&mut self, window: u32, id: u32, live: &Vec<u32>)
        requires
            old(self).wf(),
            old(self).room(),
        ensures
            Workspaces::window_moved(*old(self), *final(self), window, id, live@),
    {
        self.remove_from_desks(window, live, true);
        let ghost w1 = *self;
        let ghost after_remove = self.list@;
        let k = self.ensure(id);
        let ghost w2 = *self;
        let ghost before = self.list@;
        proof {
            assert forall|j: int| 0 <= j < before.len() && j != k implies !(#[trigger] before[j]).contains_spec(window) by {
                if has_id(after_remove, id) {
                    assert(before[j] == after_remove[j]);
                } else {
                    after_remove.insert_ensures(k as int, before[k as int]);
                    if j < k {
                        assert(before[j] == after_remove[j]);
                    } else {
                        assert(before[j] == after_remove[j - 1]);
                    }
                }
            }
            if has_id(after_remove, id) {
                let j = choose|j: int| 0 <= j < after_remove.len() && (#[trigger] after_remove[j]).id == id;
                assert(before[k as int].tree.windows_spec().len() + 1 <= WINDOW_LIMIT) by {
                    lemma_pos_of(after_remove, id);
                    assert(j == k);
                }
            }
        }
        self.list[k].insert_tiled(window);
        proof {
            assert forall|j: int| 0 <= j < self.list@.len() && j != k implies self.list@[j] == before[j] by {}
            assert(sorted_ids(self.list@)) by {
                assert forall|a: int, b: int| 0 <= a < b < self.list@.len() implies (#[trigger] self.list@[a]).id
                    < (#[trigger] self.list@[b]).id by {
                    assert(before[a].id < before[b].id);
                }
            }
            assert forall|x: u32| #[trigger] has_id(self.list@, x) == has_id(before, x) by {
                if has_id(before, x) {
                    let j = choose|j: int| 0 <= j < before.len() && (#[trigger] before[j]).id == x;
                    assert(self.list@[j].id == x);
                }
                if has_id(self.list@, x) {
                    let j = choose|j: int| 0 <= j < self.list@.len() && (#[trigger] self.list@[j]).id == x;
                    assert(before[j].id == x);
                }
            }
            assert forall|j: int| 0 <= j < self.shown@.len() implies has_id(
                self.list@,
                (#[trigger] self.shown@[j]).1,
            ) by {
                assert(has_id(before, self.shown@[j].1));
            }
            assert(has_id(before, self.active));
            assert forall|j: int| 0 <= j < self.list@.len() implies (#[trigger] self.list@[j]).wf() by {
                assert(before[j].wf());
            }
            assert forall|j: int| 0 <= j < self.list@.len() && j != k implies !(#[trigger] self.list@[j]).contains_spec(window) by {
                assert(self.list@[j] == before[j]);
            }
            lemma_pos_of(self.list@, id);
        }
        let ghost w3 = *self;
        let ghost mid = self.list@;
        let ghost pred = keeps(self.active, self.shown_spec());
        proof {
            assert(pred(mid[k as int]));
        }
        self.prune_empty();
        proof {
            lemma_filter_keeps(mid, pred, id);
            lemma_pos_of(self.list@, id);
            let p = pos_of(self.list@, id);
            assert forall|i: int| 0 <= i < self.list@.len() && i != p implies !(#[trigger] self.list@[i]).contains_spec(window) by {
                mid.lemma_filter_contains_rev(pred, self.list@[i]);
                let j = choose|j: int| 0 <= j < mid.len() && mid[j] == self.list@[i];
                if j == k {
                    assert(self.list@[i].id == id);
                }
            }
            lemma_find_only(self.list@, window, p);
            assert forall|i: int| 0 <= i < w1.list@.len() implies (#[trigger] w1.list@[i]).id
                == old(self).list@[i].id && Workspace::left_by(
                old(self).list@[i],
                w1.list@[i],
                window,
                live@,
            ) by {}
            Workspaces::lemma_window_moved(*old(self), w1, w2, w3, *self, window, id, live@, k as int);
        }
    }

    proof fn lemma_window_moved(
        w0: Workspaces,
        w1: Workspaces,
        w2: Workspaces,
        w3: Workspaces,
        w4: Workspaces,
        window: u32,
        id: u32,
        live: Seq<u32>,
        k: int,
    )
        requires
            w0.wf(),
            w1.wf(),
            w2.wf(),
            w3.wf(),
            w4.wf(),
            w1.list@.len() == w0.list@.len(),
            forall|i: int| 0 <= i < w1.list@.len() ==> (#[trigger] w1.list@[i]).id == w0.list@[i].id
                && Workspace::left_by(w0.list@[i], w1.list@[i], window, live),
            0 <= k < w2.list@.len(),
            w2.list@[k].id == id,
            has_id(w1.list@, id) ==> w2.list@ == w1.list@,
            !has_id(w1.list@, id) ==> w2.list@[k].is_empty_spec(),
            forall|x: u32| #[trigger] has_id(w2.list@, x) <==> has_id(w1.list@, x) || x == id,
            forall|x: u32| has_id(w1.list@, x) ==> #[trigger] w2.get_spec(x) == w1.get_spec(x),
            w3.list@.len() == w2.list@.len(),
            forall|j: int| 0 <= j < w3.list@.len() && j != k ==> w3.list@[j] == w2.list@[j],
            Workspace::tiled_in(w2.list@[k], w3.list@[k], window),
            w4.list@ == w3.list@.filter(keeps(w0.active, w0.shown_spec())),
            find_spec(w4.list@, window) == Some(id),
            w4.active == w0.active,
            w4.previous == w0.previous,
            w4.shown_spec() == w0.shown_spec(),
            w4.scratchpad@ == w0.scratchpad@,
        ensures
            Workspaces::window_moved(w0, w4, window, id, live),
    {
        let l0 = w0.list@;
        let l1 = w1.list@;
        let l2 = w2.list@;
        let l3 = w3.list@;
        let l4 = w4.list@;
        let pred = keeps(w0.active, w0.shown_spec());
        lemma_same_ids(l0, l1);
        assert forall|j: int| 0 <= j < l2.len() implies (#[trigger] l2[j]).id == l3[j].id by {
            if j != k {
                assert(l3[j] == l2[j]);
            }
        }
        lemma_same_ids(l2, l3);
        lemma_pos_of(l2, id);
        assert(pos_of(l2, id) == k);
        assert(pos_of(l3, id) == k);
        assert(l3[k].tree.windows_spec().contains(window));
        assert(!l3[k].is_empty_spec());
        lemma_filter_keeps(l3, pred, id);
        assert(has_id(l4, id));
        assert(w4.get_spec(id)->0 == l3[k]);
        if has_id(l0, id) {
            assert(has_id(l1, id));
            lemma_pos_of(l1, id);
            assert(l2[k] == l1[pos_of(l1, id)]);
            assert(pos_of(l1, id) == pos_of(l0, id));
            assert(Workspace::left_by(w0.get_spec(id)->0, l2[k], window, live));
            assert(Workspace::tiled_in(l2[k], w4.get_spec(id)->0, window));
        } else {
            assert(!has_id(l1, id));
            assert(Workspace::tiled_in(l2[k], w4.get_spec(id)->0, window));
        }
        assert forall|x: u32| #[trigger]
            has_id(w4.list_spec(), x) && x != id implies has_id(w0.list_spec(), x) && Workspace::left_by(
                w0.get_spec(x)->0,
                w4.get_spec(x)->0,
                window,
                live,
            ) by {
            lemma_filter_get(l3, pred, x);
            assert(has_id(l2, x));
            assert(has_id(l1, x));
            lemma_pos_of(l2, x);
            let p = pos_of(l2, x);
            assert(p != k);
            assert(l3[p] == l2[p]);
            assert(w2.get_spec(x) == w1.get_spec(x));
            lemma_pos_of(l1, x);
        }
        assert forall|x: u32|
            #![trigger has_id(w0.list_spec(), x)]
            has_id(w0.list_spec(), x) && !has_id(w4.list_spec(), x) implies x != id && x
                != w0.active_spec() && !w0.is_shown_spec(x) && exists|d: Workspace|
                #[trigger] Workspace::left_by(w0.get_spec(x)->0, d, window, live) && d.is_empty_spec() by {
            assert(has_id(l1, x));
            assert(has_id(l2, x));
            lemma_pos_of(l2, x);
            let p = pos_of(l2, x);
            assert(p != k);
            assert(l3[p] == l2[p]);
            assert(w2.get_spec(x) == w1.get_spec(x));
            lemma_pos_of(l1, x);
            if pred(l3[p]) {
                lemma_filter_keeps(l3, pred, x);
            }
            assert(!pred(l3[p]));
            assert(Workspace::left_by(w0.get_spec(x)->0, l3[p], window, live));
            if w0.is_shown_spec(x) {
                let i = choose|i: int| 0 <= i < w0.shown_spec().len() && (#[trigger] w0.shown_spec()[i]).1 == x;
                assert(w0.shown_spec()[i].1 == l3[p].id);
            }
        }
    }

    /// Whether every desk has room for the window operations that may add
    /// one tile per stack (see `room`).
    pub fn has_room(&self) -> (r: bool)
        ensures
            r == self.room(),
    {
        let mut i: usize = 0;
        while i < self.list.len()
            invariant
                i <= self.list@.len(),
                forall|j: int|
                    0 <= j < i ==> (#[trigger] self.list@[j]).tree.windows_spec().len()
                        + self.list@[j].stacks@.len() + 1 <= WINDOW_LIMIT,
            decreases self.list.len() - i,
        {
            let n = self.list[i].tree.windows().len();
            let m = self.list[i].stacks.len();
            if n >= WINDOW_LIMIT || m >= WINDOW_LIMIT - n {
                return false;
            }
            i += 1;
        }
        true
    }

    /// Drop dead windows everywhere (each desk's tree, floating layer and
    /// stacks, and the stage shelf), then drop desks left empty and off
    /// screen.
    pub fn prune_dead(&mut self, live: &Vec<u32>)
        requires
            old(self).wf(),
            old(self).room(),
        ensures
            final(self).wf(),
            forall|w: u32| #[trigger] final(self).owns(w) ==> live@.contains(w),
            final(self).scratchpad_spec() == keep_live(old(self).scratchpad_spec(), live@),
            forall|x: u32| #[trigger] has_id(final(self).list_spec(), x) ==> has_id(old(self).list_spec(), x),
            final(self).active_spec() == old(self).active_spec(),
            final(self).previous_spec() == old(self).previous_spec(),
            final(self).shown_spec() == old(self).shown_spec(),
            forall|id: u32| #[trigger]
                has_id(final(self).list_spec(), id) ==> Workspace::desk_pruned(
                    old(self).get_spec(id)->0,
                    final(self).get_spec(id)->0,
                    live@,
                ),
            forall|id: u32|
                #![trigger has_id(old(self).list_spec(), id)]
                has_id(old(self).list_spec(), id) && !has_id(final(self).list_spec(), id) ==> id
                    != old(self).active_spec() && !old(self).is_shown_spec(id) && exists|d: Workspace|
                    #[trigger] Workspace::desk_pruned(old(self).get_spec(id)->0, d, live@)
                        && d.is_empty_spec(),
    {
        let mut i: usize = 0;
        while i < self.list.len()
            invariant
                i <= self.list@.len(),
                self.list@.len() == old(self).list@.len(),
                forall|j: int|
                    0 <= j < self.list@.len() ==> {
                        &&& (#[trigger] self.list@[j]).id == old(self).list@[j].id
                        &&& self.list@[j].wf()
                    },
                forall|j: int| 0 <= j < i ==> all_live(#[trigger] self.list@[j], live@),
                forall|j: int| 0 <= j < i ==> Workspace::desk_pruned(old(self).list@[j], #[trigger] self.list@[j], live@),
                forall|j: int| i <= j < self.list@.len() ==> self.list@[j] == old(self).list@[j],
                old(self).room(),
                old(self).wf(),
                self.active == old(self).active,
                self.previous == old(self).previous,
                self.shown@ == old(self).shown@,
                self.scratchpad@ == old(self).scratchpad@,
            decreases self.list.len() - i,
        {
            let ghost before = self.list@;
            let ghost d0 = self.list@[i as int];
            proof {
                assert(old(self).list@[i as int].tree.windows_spec().len() + old(self).list@[i as int].stacks@.len()
                    + 1 <= WINDOW_LIMIT);
                d0.tree.windows_spec().lemma_filter_len(live_pred(live@));
            }
            self.list[i].prune_dead(live);
            let ghost d1 = self.list@[i as int];
            self.list[i].prune_stacks(live);
            proof {
                lemma_desk_all_live(d0, d1, self.list@[i as int], live@);
                assert(Workspace::stacks_pruned(d1, self.list@[i as int], live@));
                assert forall|j: int| 0 <= j < self.list@.len() && j != i implies self.list@[j] == before[j] by {}
            }
            i += 1;
        }
        self.scratchpad = filter_live(&self.scratchpad, live);
        proof {
            assert(sorted_ids(self.list@)) by {
                assert forall|a: int, b: int| 0 <= a < b < self.list@.len() implies (#[trigger] self.list@[a]).id
                    < (#[trigger] self.list@[b]).id by {
                    assert(old(self).list@[a].id < old(self).list@[b].id);
                }
            }
            assert forall|x: u32| #[trigger] has_id(self.list@, x) == has_id(old(self).list@, x) by {
                if has_id(old(self).list@, x) {
                    let j = choose|j: int| 0 <= j < old(self).list@.len() && (#[trigger] old(self).list@[j]).id == x;
                    assert(self.list@[j].id == x);
                }
                if has_id(self.list@, x) {
                    let j = choose|j: int| 0 <= j < self.list@.len() && (#[trigger] self.list@[j]).id == x;
                    assert(old(self).list@[j].id == x);
                }
            }
            assert(has_id(self.list@, self.active));
            assert forall|j: int| 0 <= j < self.shown@.len() implies has_id(
                self.list@,
                (#[trigger] self.shown@[j]).1,
            ) by {
                assert(has_id(old(self).list@, self.shown@[j].1));
            }
        }
        let ghost mid = self.list@;
        let ghost pred = keeps(self.active, self.shown_spec());
        self.prune_empty();
        proof {
            assert forall|w: u32| #[trigger] self.owns(w) implies live@.contains(w) by {
                let i = choose|i: int| 0 <= i < self.list_spec().len() && (#[trigger] self.list_spec()[i]).contains_spec(w);
                mid.lemma_filter_contains_rev(pred, self.list@[i]);
                let j = choose|j: int| 0 <= j < mid.len() && mid[j] == self.list@[i];
                assert(all_live(mid[j], live@));
                assert(mid[j].contains_spec(w));
            }
            assert forall|x: u32| #[trigger] has_id(self.list_spec(), x) implies has_id(old(self).list_spec(), x) by {
                lemma_filter_has(mid, pred, x);
            }
            lemma_same_ids(old(self).list@, mid);
            assert forall|id: u32| #[trigger]
                has_id(self.list_spec(), id) implies Workspace::desk_pruned(
                    old(self).get_spec(id)->0,
                    self.get_spec(id)->0,
                    live@,
                ) by {
                lemma_filter_get(mid, pred, id);
                lemma_pos_of(mid, id);
                lemma_pos_of(old(self).list@, id);
            }
            assert forall|id: u32|
                #![trigger has_id(old(self).list_spec(), id)]
                has_id(old(self).list_spec(), id) && !has_id(self.list_spec(), id) implies id
                    != old(self).active_spec() && !old(self).is_shown_spec(id) && exists|d: Workspace|
                    #[trigger] Workspace::desk_pruned(old(self).get_spec(id)->0, d, live@)
                        && d.is_empty_spec() by {
                lemma_pos_of(old(self).list@, id);
                let k = pos_of(old(self).list@, id);
                let d = mid[k];
                assert(d.id == id);
                if pred(d) {
                    mid.lemma_filter_contains(pred, k);
                    let j = choose|j: int| 0 <= j < self.list@.len() && self.list@[j] == d;
                    assert(self.list@[j].id == id);
                }
                assert(Workspace::desk_pruned(old(self).get_spec(id)->0, d, live@));
                if old(self).is_shown_spec(id) {
                    let i = choose|i: int|
                        0 <= i < old(self).shown_spec().len() && (#[trigger] old(self).shown_spec()[i]).1 == id;
                    assert(self.shown_spec()[i].1 == id);
                }
            }
        }
    }

    /// `(active desk, [(id, window count, output, on screen)])`, by id.
    pub fn snapshot(&self) -> (r: (u32, Vec<(u32, usize, String, bool)>))
        requires
            self.wf(),
        ensures
            r.0 == self.active_spec(),
            r.1@.len() == self.list_spec().len(),
            forall|i: int|
                0 <= i < r.1@.len() ==> {
                    &&& (#[trigger] r.1@[i]).0 == self.list_spec()[i].id
                    &&& r.1@[i].1 == self.list_spec()[i].windows_spec().len()
                    &&& r.1@[i].2@ == self.list_spec()[i].output@
                    &&& r.1@[i].3 == self.is_shown_spec(self.list_spec()[i].id)
                },
            forall|i: int, j: int| 0 <= i < j < r.1@.len() ==> (#[trigger] r.1@[i]).0 < (#[trigger] r.1@[j]).0,
    {
        let mut out: Vec<(u32, usize, String, bool)> = Vec::new();
        let mut i: usize = 0;
        while i < self.list.len()
            invariant
                i <= self.list@.len(),
                out@.len() == i,
                forall|k: int|
                    0 <= k < i ==> {
                        &&& (#[trigger] out@[k]).0 == self.list@[k].id
                        &&& out@[k].1 == self.list@[k].windows_spec().len()
                        &&& out@[k].2@ == self.list@[k].output@
                        &&& out@[k].3 == self.is_shown_spec(self.list@[k].id)
                    },
            decreases self.list.len() - i,
        {
            let ws = &self.list[i];
            let n = ws.windows().len();
            let shown = self.is_shown(ws.id);
            out.push((ws.id, n, ws.output.clone(), shown));
            i += 1;
        }
        proof {
            assert forall|a: int, b: int| 0 <= a < b < out@.len() implies (#[trigger] out@[a]).0 < (
            #[trigger] out@[b]).0 by {
                assert(self.list@[a].id < self.list@[b].id);
            }
        }
        (self.active, out)
    }

    /// Windows of the desks on screen, monitor by monitor.
    pub fn visible_windows(&self) -> (r: Vec<u32>)
        requires
            self.wf(),
        ensures
            r@ == visible_spec(self.list_spec(), self.shown_spec()),
    {
        let mut out: Vec<u32> = Vec::new();
        let mut i: usize = 0;
        while i < self.shown.len()
            invariant
                self.wf(),
                i <= self.shown@.len(),
                out@ == visible_spec(self.list_spec(), self.shown_spec().take(i as int)),
            decreases self.shown.len() - i,
        {
            proof {
                let sh = self.shown_spec();
                assert(sh.take(i + 1).drop_last() =~= sh.take(i as int));
                assert(sh.take(i + 1).last() == sh[i as int]);
            }
            match self.get(self.shown[i].1) {
                Some(ws) => {
                    let wv = ws.windows();
                    let mut k: usize = 0;
                    let ghost base = out@;
                    while k < wv.len()
                        invariant
                            k <= wv@.len(),
                            out@ == base + wv@.take(k as int),
                        decreases wv.len() - k,
                    {
                        out.push(wv[k]);
                        proof {
                            assert(wv@.take(k + 1) =~= wv@.take(k as int).push(wv@[k as int]));
                        }
                        k += 1;
                    }
                    proof {
                        assert(wv@.take(wv@.len() as int) =~= wv@);
                    }
                }
                None => {
                    proof {
                        assert(out@ =~= out@ + Seq::<u32>::empty());
                    }
                }
            }
            i += 1;
        }
        proof {
            assert(self.shown_spec().take(self.shown@.len() as int) =~= self.shown_spec());
        }
        out
    }

    /// What `stage_add(w)` makes of `old`, `r` telling whether `w` was on
    /// the shelf.
    pub open spec fn staged(old: Workspaces, new: Workspaces, w: u32, r: bool) -> bool {
        &&& new.wf()
        &&& r == old.scratchpad_spec().contains(w)
        &&& !r ==> new == old
        &&& r ==> {
            &&& new.scratchpad_spec() == old.scratchpad_spec().remove(first_pos(old.scratchpad_spec(), w))
            &&& new.list_spec() == old.list_spec().update(
                pos_of(old.list_spec(), old.active_spec()),
                new.active_ws(),
            )
            &&& new.active_ws().focus_floating is None
            &&& new.active_ws().tree.focused_spec() == Some(w)
            &&& forall|x: u32|
                #[trigger] new.active_ws().tree.windows_spec().contains(x) <==> (
                old.active_ws().tree.windows_spec().contains(x) || x == w)
            &&& new.active_ws().floating == old.active_ws().floating
            &&& new.active_ws().stacks == old.active_ws().stacks
        }
        &&& new.active_spec() == old.active_spec()
        &&& new.previous_spec() == old.previous_spec()
        &&& new.shown_spec() == old.shown_spec()
    }

    /// Shelf card to stage, alongside: `w` leaves the shelf and is tiled on
    /// the active desk next to the focused window. False when `w` is not on
    /// the shelf.
    pub fn stage_add(&mut self, w: u32) -> (r: bool)
        requires
            old(self).wf(),
            old(self).room(),
        ensures
            Workspaces::staged(*old(self), *final(self), w, r),
    {
        let idx = match first_index(&self.scratchpad, w) {
            Some(i) => i,
            None => {
                return false;
            },
        };
        proof {
            lemma_first_pos(self.scratchpad@, w, idx as int);
            lemma_pos_of(self.list@, self.active);
        }
        self.scratchpad.remove(idx);
        let ghost w0 = *self;
        let ghost p = pos_of(self.list@, self.active);
        proof {
            assert(self.list@[p].tree.windows_spec().len() + self.list@[p].stacks@.len() + 1
                <= WINDOW_LIMIT);
        }
        let ws = self.active();
        ws.focus_floating = None;
        ws.insert_tiled(w);
        proof {
            Workspaces::lemma_active_update(w0, *self, self.list@[p]);
        }
        true
    }

    /// Swap a shelf card onto the stage: `w` leaves the shelf and takes the
    /// place of `out` (the focused window, unless it is pinned), which goes to
    /// the shelf where the card was. A tiled `out` hands over its tile (and
    /// its place in a tab group); a floating one its floating slot. Without
    /// such an `out`, `w` is simply tiled. False when `w` is not on the shelf.
    pub fn stage_swap(&mut self, w: u32, out: Option<u32>) -> (r: bool)
        requires
            old(self).wf(),
            old(self).room(),
        ensures
            final(self).wf(),
            r == old(self).scratchpad_spec().contains(w),
            !r ==> *final(self) == *old(self),
            r ==> {
                let idx = first_pos(old(self).scratchpad_spec(), w);
                let rest = old(self).scratchpad_spec().remove(idx);
                let a = old(self).active_ws();
                let b = final(self).active_ws();
                &&& final(self).list_spec() == old(self).list_spec().update(
                    pos_of(old(self).list_spec(), old(self).active_spec()),
                    b,
                )
                &&& (if out is Some && a.tree.windows_spec().contains(out->0) {
                    &&& final(self).scratchpad_spec() == rest.insert(idx, out->0)
                    &&& b.tree.windows_spec() == replace_ids(a.tree.windows_spec(), out->0, w)
                    &&& b.tree.focused_spec() == Some(w)
                    &&& b.floating == a.floating
                    &&& b.focus_floating == a.focus_floating
                    &&& (if in_some_stack(stacks_view(a.stacks@), out->0) {
                        let si = crate::chrome::stack_pos(a.stacks@, out->0);
                        &&& b.stacks@.len() == a.stacks@.len()
                        &&& forall|j: int|
                            0 <= j < a.stacks@.len() && j != si ==> #[trigger] b.stacks@[j]
                                == a.stacks@[j]
                        &&& b.stacks@[si].members@ == a.stacks@[si].members@.update(
                            first_pos(a.stacks@[si].members@, out->0),
                            w,
                        )
                        &&& b.stacks@[si].active == a.stacks@[si].active
                    } else {
                        b.stacks == a.stacks
                    })
                } else if out is Some && entry_ids(a.floating@).contains(out->0) {
                    &&& final(self).scratchpad_spec() == rest.insert(idx, out->0)
                    &&& b.floating@ == a.floating@.update(
                        entry_index(a.floating@, out->0),
                        (w, a.floating@[entry_index(a.floating@, out->0)].1),
                    )
                    &&& b.focus_floating == Some(w)
                    &&& b.tree == a.tree
                    &&& b.stacks == a.stacks
                } else {
                    &&& final(self).scratchpad_spec() == rest
                    &&& b.focus_floating is None
                    &&& b.tree.focused_spec() == Some(w)
                    &&& forall|x: u32|
                        #[trigger] b.tree.windows_spec().contains(x) <==> (a.tree.windows_spec().contains(
                            x,
                        ) || x == w)
                    &&& b.floating == a.floating
                    &&& b.stacks == a.stacks
                })
            },
            final(self).active_spec() == old(self).active_spec(),
            final(self).previous_spec() == old(self).previous_spec(),
            final(self).shown_spec() == old(self).shown_spec(),
    {
        let idx = match first_index(&self.scratchpad, w) {
            Some(i) => i,
            None => {
                return false;
            },
        };
        proof {
            lemma_first_pos(self.scratchpad@, w, idx as int);
            lemma_pos_of(self.list@, self.active);
        }
        self.scratchpad.remove(idx);
        let ghost w0 = *self;
        let ghost p = pos_of(self.list@, self.active);
        let ghost a = self.list@[p];
        proof {
            assert(a.tree.windows_spec().len() + a.stacks@.len() + 1 <= WINDOW_LIMIT);
        }
        let ws = self.active();
        let mut back: Option<u32> = None;
        match out {
            Some(o) => {
                if ws.tree.contains(o) {
                    match ws.stack_of(o) {
                        Some(si) => {
                            proof {
                                crate::chrome::lemma_stack_pos(ws.stacks@, o, si as int);
                            }
                            match first_index(&ws.stacks[si].members, o) {
                                Some(k) => {
                                    proof {
                                        lemma_first_pos(ws.stacks@[si as int].members@, o, k as int);
                                    }
                                    let ghost before = ws.stacks@;
                                    ws.stacks[si].members.set(k, w);
                                    proof {
                                        assert forall|j: int| 0 <= j < ws.stacks@.len() && j != si implies #[trigger] ws.stacks@[j]
                                            == before[j] by {}
                                    }
                                },
                                None => {},
                            }
                        },
                        None => {},
                    }
                    ws.tree.replace_window(o, w);
                    proof {
                        let t = a.tree.windows_spec();
                        let j = choose|j: int| 0 <= j < t.len() && t[j] == o;
                        assert(replace_ids(t, o, w)[j] == w);
                    }
                    ws.tree.focus_window(w);
                    back = Some(o);
                } else if ws.floats(o) {
                    let mut k: usize = 0;
                    while k < ws.floating.len() && ws.floating[k].0 != o
                        invariant
                            k <= ws.floating@.len(),
                            forall|j: int| 0 <= j < k ==> (#[trigger] ws.floating@[j]).0 != o,
                        decreases ws.floating.len() - k,
                    {
                        k += 1;
                    }
                    proof {
                        if k == ws.floating@.len() {
                            let j = choose|j: int|
                                0 <= j < entry_ids(ws.floating@).len() && entry_ids(ws.floating@)[j] == o;
                            assert(ws.floating@[j].0 == o);
                        }
                        lemma_entry_index(ws.floating@, o, k as int);
                    }
                    let rect = ws.floating[k].1;
                    ws.floating.set(k, (w, rect));
                    ws.focus_floating = Some(w);
                    back = Some(o);
                } else {
                    ws.focus_floating = None;
                    ws.insert_tiled(w);
                }
            },
            None => {
                ws.focus_floating = None;
                ws.insert_tiled(w);
            },
        }
        proof {
            Workspaces::lemma_active_update(w0, *self, self.list@[p]);
        }
        if let Some(o) = back {
            self.scratchpad.insert(idx, o);
        }
        true
    }

    /// The active desk as `stash(w)` leaves it before sweeping `w` off every
    /// desk: not fullscreen on `w` any more, and `w` out of its tab group.
    pub open spec fn stash_prepped(old: Workspace, new: Workspace, w: u32, live: Seq<u32>) -> bool {
        let cleared = Workspace {
            fullscreen: if old.fullscreen == Some(w) {
                None
            } else {
                old.fullscreen
            },
            ..old
        };
        if in_some_stack(stacks_view(old.stacks@), w) {
            crate::chrome::detached(cleared, new, w, live)
        } else {
            new == cleared
        }
    }

    /// What `stash(w, at)` makes of `old`: `w` is off every desk (fullscreen
    /// and tab group on the active desk let go of it first) and on the shelf
    /// at `at` (or last).
    pub open spec fn stashed(old: Workspaces, new: Workspaces, w: u32, at: usize, live: Seq<u32>) -> bool {
        let rest = without(old.scratchpad_spec(), w);
        &&& new.wf()
        &&& !new.owns(w)
        &&& new.scratchpad_spec() == rest.insert(
            if at <= rest.len() {
                at as int
            } else {
                rest.len() as int
            },
            w,
        )
        &&& forall|x: u32| #[trigger] has_id(new.list_spec(), x) == has_id(old.list_spec(), x)
        &&& new.active_spec() == old.active_spec()
        &&& new.previous_spec() == old.previous_spec()
        &&& new.shown_spec() == old.shown_spec()
        &&& forall|id: u32| #[trigger]
            has_id(new.list_spec(), id) ==> exists|d: Workspace|
                #[trigger] Workspace::removed_from(d, new.get_spec(id)->0, w, live) && if id
                    == old.active_spec() {
                    Workspaces::stash_prepped(old.get_spec(id)->0, d, w, live)
                } else {
                    d == old.get_spec(id)->0
                }
    }

    /// Stash `w` on the shelf at position `at` (0 = top; past the end means
    /// last): it leaves fullscreen and its tab group on the active desk, then
    /// every desk.
    pub fn stash(&mut self, w: u32, at: usize, live: &Vec<u32>)
        requires
            old(self).wf(),
            old(self).room(),
            old(self).active_ws().tree.windows_spec().len() + 2 * old(self).active_ws().stacks@.len() + 1
                <= WINDOW_LIMIT,
        ensures
            Workspaces::stashed(*old(self), *final(self), w, at, live@),
    {
        let ghost w0 = *self;
        proof {
            lemma_pos_of(self.list@, self.active);
        }
        let ghost p = pos_of(self.list@, self.active);
        let ghost a = self.list@[p];
        let ws = self.active();
        if ws.fullscreen == Some(w) {
            ws.fullscreen = None;
        }
        ws.detach_group_member(w, live);
        proof {
            Workspaces::lemma_active_update(w0, *self, self.list@[p]);
            assert forall|i: int| 0 <= i < self.list@.len() implies (#[trigger] self.list@[i]).tree.windows_spec().len()
                + self.list@[i].stacks@.len() + 1 <= WINDOW_LIMIT by {
                if i != p {
                    assert(self.list@[i] == w0.list@[i]);
                }
            }
            assert(self.room());
        }
        let ghost w1 = *self;
        self.detach_everywhere(w, live);
        let ghost w2 = *self;
        proof {
            assert(!w2.owns(w));
            assert(self.scratchpad@ == w0.scratchpad@);
            assert forall|x: u32| #[trigger] has_id(self.list_spec(), x) == has_id(w0.list_spec(), x) by {
                assert(has_id(self.list_spec(), x) == has_id(w1.list_spec(), x));
                assert(has_id(w1.list_spec(), x) == has_id(w0.list_spec(), x));
            }
        }
        self.scratchpad = filter_out(&self.scratchpad, w);
        let n = self.scratchpad.len();
        let at = if at <= n {
            at
        } else {
            n
        };
        self.scratchpad.insert(at, w);
        proof {
            assert(self.list@ == w2.list@);
            assert(self.list_spec() == w2.list_spec());
            assert forall|id: u32| #[trigger]
                has_id(self.list_spec(), id) implies exists|d: Workspace|
                    #[trigger] Workspace::removed_from(d, self.get_spec(id)->0, w, live@) && if id
                        == w0.active_spec() {
                        Workspaces::stash_prepped(w0.get_spec(id)->0, d, w, live@)
                    } else {
                        d == w0.get_spec(id)->0
                    } by {
                assert(has_id(w1.list_spec(), id));
                assert(has_id(w0.list_spec(), id));
                lemma_pos_of(w0.list@, id);
                lemma_pos_of(w1.list@, id);
                assert(w1.list@[pos_of(w0.list@, id)].id == id);
                assert(pos_of(w1.list@, id) == pos_of(w0.list@, id));
                let d = w1.get_spec(id)->0;
                assert(Workspace::removed_from(d, self.get_spec(id)->0, w, live@));
            }
        }
    }

    /// Desks that get a panel in the overview: every desk holding something,
    /// and the active one, by id.
    pub fn overview_panels(&self) -> (r: Vec<u32>)
        requires
            self.wf(),
        ensures
            r@ == self.list_spec().filter(panel_pred(self.active_spec())).map_values(|w: Workspace| w.id),
    {
        let ghost pred = panel_pred(self.active);
        let mut out: Vec<u32> = Vec::new();
        let mut i: usize = 0;
        proof {
            reveal_with_fuel(Seq::filter, 1);
            assert(self.list@.take(0).filter(pred) =~= Seq::<Workspace>::empty());
            assert(out@ =~= self.list@.take(0).filter(pred).map_values(|w: Workspace| w.id));
        }
        while i < self.list.len()
            invariant
                self.wf(),
                pred == panel_pred(self.active),
                i <= self.list@.len(),
                out@ == self.list@.take(i as int).filter(pred).map_values(|w: Workspace| w.id),
            decreases self.list.len() - i,
        {
            proof {
                lemma_filter_take_step(self.list@, i as int, pred);
            }
            let ws = &self.list[i];
            if !ws.is_empty() || ws.id == self.active {
                out.push(ws.id);
                proof {
                    let f = self.list@.take(i as int).filter(pred);
                    assert(f.push(self.list@[i as int]).map_values(|w: Workspace| w.id) =~= f.map_values(
                        |w: Workspace| w.id,
                    ).push(self.list@[i as int].id));
                }
            }
            i += 1;
        }
        proof {
            assert(self.list@.take(self.list@.len() as int) =~= self.list@);
        }
        out
    }

    /// What `move_focused_to(id, live)` makes of `old`, `r` being the
    /// window moved.
    pub open spec fn moved_focused(old: Workspaces, new: Workspaces, id: u32, live: Seq<u32>, r: Option<u32>) -> bool {
        &&& new.wf()
        &&& r == old.active_ws().focused_spec(live)
        &&& r is None ==> new == old
        &&& r matches Some(w) ==> Workspaces::window_moved(old, new, w, id, live)
        &&& new.active_spec() == old.active_spec()
        &&& new.previous_spec() == old.previous_spec()
        &&& new.shown_spec() == old.shown_spec()
        &&& new.scratchpad_spec() == old.scratchpad_spec()
    }

    /// Send the active desk's focused window to desk `id` (it lands tiled
    /// there). Returns the window moved, if there was one.
    pub fn move_focused_to(&mut self, id: u32, live: &Vec<u32>) -> (r: Option<u32>)
        requires
            old(self).wf(),
            old(self).room(),
        ensures
            Workspaces::moved_focused(*old(self), *final(self), id, live@, r),
    {
        let f = self.active_ref().focused_window(live);
        match f {
            Some(w) => {
                self.move_window_to(w, id, live);
                Some(w)
            },
            None => None,
        }
    }

    /// The active desk, for changes.
    pub fn active(&mut self) -> (r: &mut Workspace)
        requires
            old(self).wf(),
        ensures
            *r == old(self).active_ws(),
            final(self).list_spec() == old(self).list_spec().update(
                pos_of(old(self).list_spec(), old(self).active_spec()),
                *final(r),
            ),
            final(self).active_spec() == old(self).active_spec(),
            final(self).previous_spec() == old(self).previous_spec(),
            final(self).shown_spec() == old(self).shown_spec(),
            final(self).scratchpad_spec() == old(self).scratchpad_spec(),
    {
        proof {
            lemma_pos_of(self.list@, self.active);
        }
        let i = self.find(self.active).unwrap();
        &mut self.list[i]
    }
}

/// Every window that desk `ws` holds is in `live`.
pub open spec fn all_live(ws: Workspace, live: Seq<u32>) -> bool {
    forall|w: u32| #[trigger] ws.contains_spec(w) ==> live.contains(w)
}

/// A desk whose dead windows were dropped and whose stacks were then pruned
/// holds only live windows.
proof fn lemma_desk_all_live(d0: Workspace, d1: Workspace, d2: Workspace, live: Seq<u32>)
    requires
        d1.tree.windows_spec() == keep_live(d0.tree.windows_spec(), live),
        d1.floating@ == d0.floating@.filter(entry_live(live)),
        stacks_view(d2.stacks@) == pruned_stacks(stacks_view(d1.stacks@), live),
        d2.floating@ == d1.floating@,
        forall|w: u32|
            #![trigger d2.tree.windows_spec().contains(w)]
            d2.tree.windows_spec().contains(w) ==> d1.tree.windows_spec().contains(w)
                || exists|i: int|
                0 <= i < d1.stacks@.len() && slot_holder(
                    #[trigger] stacks_view(d1.stacks@)[i],
                    live,
                ) == Some(w),
    ensures
        all_live(d2, live),
{
    assert forall|w: u32| #[trigger] d2.contains_spec(w) implies live.contains(w) by {
        let t2 = d2.tree.windows_spec();
        let f2 = entry_ids(d2.floating@);
        if d2.windows_spec().contains(w) {
            let j = choose|j: int| 0 <= j < d2.windows_spec().len() && d2.windows_spec()[j] == w;
            if j < t2.len() {
                assert(t2[j] == w);
                assert(t2.contains(w));
                if d1.tree.windows_spec().contains(w) {
                    let k = choose|k: int|
                        0 <= k < d1.tree.windows_spec().len() && d1.tree.windows_spec()[k] == w;
                    d0.tree.windows_spec().lemma_filter_pred(live_pred(live), k);
                } else {
                    let i = choose|i: int|
                        0 <= i < d1.stacks@.len() && slot_holder(
                            #[trigger] stacks_view(d1.stacks@)[i],
                            live,
                        ) == Some(w);
                    lemma_pruned_members(stacks_view(d1.stacks@)[i], live, w);
                }
            } else {
                let k = j - t2.len();
                assert(f2[k] == w);
                assert(d2.floating@[k].0 == w);
                d0.floating@.lemma_filter_pred(entry_live(live), k);
            }
        } else {
            lemma_pruned_stacks_members(stacks_view(d1.stacks@), live, w);
        }
    }
}

impl Default for Workspaces {
    fn default() -> (r: Workspaces)
        ensures
            r.wf(),
            r.room(),
            r.active_spec() == 1,
            r.previous_spec() == 1,
    {
        Workspaces::new()
    }
}

/// Stashing a window on the shelf and then staging it again puts it back as
/// the focused tile of the same active desk, and leaves the shelf as it was
/// without that window.
pub proof fn law_stash_then_stage(
    w0: Workspaces,
    w1: Workspaces,
    w2: Workspaces,
    w: u32,
    at: usize,
    live: Seq<u32>,
    r: bool,
)
    requires
        w0.wf(),
        Workspaces::stashed(w0, w1, w, at, live),
        Workspaces::staged(w1, w2, w, r),
    ensures
        r,
        w2.scratchpad_spec() == without(w0.scratchpad_spec(), w),
        w2.active_spec() == w0.active_spec(),
        w2.active_ws().tree.windows_spec().contains(w),
        w2.active_ws().tree.focused_spec() == Some(w),
{
    let rest = without(w0.scratchpad_spec(), w);
    let j: int = if at <= rest.len() {
        at as int
    } else {
        rest.len() as int
    };
    let sp = rest.insert(j, w);
    assert(sp[j] == w);
    assert(sp.contains(w));
    assert forall|i: int| 0 <= i < j implies sp[i] != w by {
        assert(sp[i] == rest[i]);
        lemma_without_contains(w0.scratchpad_spec(), w, w);
        assert(rest.contains(rest[i]));
    }
    lemma_first_pos(sp, w, j);
    assert(sp.remove(j) =~= rest);
}

/// Back and forth: switching to another desk and then to the previous one
/// returns to the desk you started on, with the other one as previous.
pub proof fn law_back_and_forth(
    w0: Workspaces,
    w1: Workspaces,
    w2: Workspaces,
    id: u32,
    h1: Seq<u32>,
    h2: Seq<u32>,
)
    requires
        w0.wf(),
        id != w0.active_spec(),
        Workspaces::switched(w0, w1, id, h1),
        Workspaces::switched(w1, w2, w1.previous_spec(), h2),
    ensures
        w2.active_spec() == w0.active_spec(),
        w2.previous_spec() == id,
        has_id(w2.list_spec(), w0.active_spec()),
{
}

/// A desk gets an overview panel when it holds something or is active.
pub open spec fn panel_pred(active: u32) -> spec_fn(Workspace) -> bool {
    |w: Workspace| !w.is_empty_spec() || w.id == active
}

} // verus!
