//! Tab groups: several windows sharing one tile, one of them shown. The
//! shown member holds the tile's leaf in the tree; switching tabs swaps the
//! occupant of that leaf.
use vstd::prelude::*;

use crate::layout::{first_index, replace_ids, without};
use crate::workspaces::{
    Stack, Workspace, WINDOW_LIMIT, drop_entry, entry_neq, first_pos, in_some_stack, lemma_first_pos,
    lemma_pruned_stacks_len, pruned_stacks, slot_holder, stacks_view,
};

verus! {

/// One tab strip as drawn: member titles, the shown tab, the tab under the
/// pointer, and whether the tile holds keyboard focus.
pub struct TabInfo {
    pub titles: Vec<String>,
    pub active: usize,
    /// Tab under the pointer (index), for the hover wash.
    pub hover: Option<usize>,
    /// The tile currently holds keyboard focus (strip reads brighter).
    pub focused: bool,
}

/// The strip of a stack: `titles` are its members' titles in order.
pub fn tab_info(stack: &Stack, titles: Vec<String>, hover: Option<usize>, focused: bool) -> (r:
    TabInfo)
    ensures
        r.titles == titles,
        r.active == stack.active,
        r.hover == hover,
        r.focused == focused,
{
    TabInfo { titles, active: stack.active, hover, focused }
}

/// Position of the first stack with member `w` (meaningful when there is one).
pub open spec fn stack_pos(stacks: Seq<Stack>, w: u32) -> int {
    choose|i: int|
        0 <= i < stacks.len() && stacks[i].members@.contains(w) && forall|j: int|
            0 <= j < i ==> !(#[trigger] stacks[j]).members@.contains(w)
}

pub(crate) proof fn lemma_stack_pos(stacks: Seq<Stack>, w: u32, i: int)
    requires
        0 <= i < stacks.len(),
        stacks[i].members@.contains(w),
        forall|j: int| 0 <= j < i ==> !(#[trigger] stacks[j]).members@.contains(w),
    ensures
        stack_pos(stacks, w) == i,
{
    let c = stack_pos(stacks, w);
    if c < i {
        assert(!stacks[c].members@.contains(w));
    }
    if i < c {
        assert(!stacks[i].members@.contains(w));
    }
}

/// A stack after `member` (at `idx`) leaves it: the member is dropped; when
/// it was shown, the next member (or the new last) is shown instead; shown
/// positions past it move down by one.
pub open spec fn after_leave(e: (Seq<u32>, usize), idx: int) -> (Seq<u32>, usize) {
    let m = e.0.remove(idx);
    let a: int = if idx == e.1 {
        if idx < m.len() {
            idx
        } else {
            m.len() - 1
        }
    } else if idx < e.1 {
        e.1 - 1
    } else {
        e.1 as int
    };
    (m, a as usize)
}

#[verifier::opaque]
/// What `detach_group_member` makes of a desk: `old` holds `member` in a
/// stack, and `new` is the desk after it left the stack (its tile, if it was
/// shown, going to the heir) and the stacks were pruned.
pub open spec fn detached(old: Workspace, new: Workspace, member: u32, live: Seq<u32>) -> bool {
    let si = stack_pos(old.stacks@, member);
    let v = stacks_view(old.stacks@);
    let idx = first_pos(v[si].0, member);
    let left = after_leave(v[si], idx);
    let mid_tree = if idx == v[si].1 {
        replace_ids(old.tree.windows_spec(), member, left.0[left.1 as int])
    } else {
        old.tree.windows_spec()
    };
    let mid_view = v.update(si, left);
    &&& new.wf()
    &&& stacks_view(new.stacks@) == pruned_stacks(mid_view, live)
    &&& forall|w: u32| mid_tree.contains(w) ==> #[trigger] new.tree.windows_spec().contains(w)
    &&& forall|w: u32|
        #![trigger new.tree.windows_spec().contains(w)]
        new.tree.windows_spec().contains(w) ==> mid_tree.contains(w) || exists|i: int|
            0 <= i < mid_view.len() && slot_holder(#[trigger] mid_view[i], live) == Some(w)
    &&& new.floating@ == old.floating@
    &&& new.focus_floating == old.focus_floating
    &&& new.fullscreen == old.fullscreen
    &&& new.id == old.id
    &&& new.mode == old.mode
    &&& new.output@ == old.output@
}

/// When a member leaves a tab group, the window shown stays shown if it was
/// another one; if the shown member leaves, the next member takes its place
/// (the one before it, when it was the last). Everyone else stays, in order.
pub proof fn law_leave_shows_heir(members: Seq<u32>, shown: usize, idx: int)
    requires
        0 <= idx < members.len(),
        shown < members.len(),
        members.len() >= 2,
    ensures
        ({
            let (m, a) = after_leave((members, shown), idx);
            &&& m.len() == members.len() - 1
            &&& forall|j: int| 0 <= j < idx ==> m[j] == members[j]
            &&& forall|j: int| idx < j < members.len() ==> m[j - 1] == members[j]
            &&& a < m.len()
            &&& idx != shown ==> m[a as int] == members[shown as int]
            &&& idx == shown && idx + 1 < members.len() ==> m[a as int] == members[idx + 1]
            &&& idx == shown && idx + 1 == members.len() ==> m[a as int] == members[idx - 1]
        }),
{
}

impl Workspace {
    /// Show `member` in its tab group: it takes the tile's leaf from the
    /// member shown so far (returned, so it can be unmapped) and gets focus.
    pub fn activate_tab(&mut self, member: u32) -> (r: Option<u32>)
        requires
            old(self).wf(),
                    ensures
            final(self).wf(),
            !in_some_stack(stacks_view(old(self).stacks@), member) ==> *final(self) == *old(self)
                && r is None,
            in_some_stack(stacks_view(old(self).stacks@), member) ==> {
                let si = stack_pos(old(self).stacks@, member);
                let s = old(self).stacks@[si];
                let prev = s.members@[s.active as int];
                &&& final(self).focus_floating is None
                &&& final(self).stacks@.len() == old(self).stacks@.len()
                &&& forall|j: int|
                    0 <= j < old(self).stacks@.len() && j != si ==> #[trigger] final(self).stacks@[j]
                        == old(self).stacks@[j]
                &&& final(self).stacks@[si].members == s.members
                &&& prev != member ==> {
                    &&& r == Some(prev)
                    &&& final(self).stacks@[si].active == first_pos(s.members@, member)
                    &&& final(self).tree.windows_spec() == replace_ids(
                        old(self).tree.windows_spec(),
                        prev,
                        member,
                    )
                }
                &&& prev == member ==> {
                    &&& r is None
                    &&& final(self).stacks@[si].active == s.active
                    &&& final(self).tree.windows_spec() == old(self).tree.windows_spec()
                }
                &&& final(self).tree.windows_spec().contains(member) ==> final(self).tree.focused_spec()
                    == Some(member)
            },
            final(self).floating == old(self).floating,
            final(self).fullscreen == old(self).fullscreen,
            final(self).id == old(self).id,
            final(self).mode == old(self).mode,
            final(self).output == old(self).output,
    {
        let si = match self.stack_of(member) {
            Some(i) => i,
            None => {
                return None;
            },
        };
        proof {
            lemma_stack_pos(self.stacks@, member, si as int);
            assert(stacks_view(self.stacks@)[si as int].0.contains(member));
        }
        let idx = match first_index(&self.stacks[si].members, member) {
            Some(k) => k,
            None => {
                return None;
            },
        };
        proof {
            lemma_first_pos(self.stacks@[si as int].members@, member, idx as int);
        }
        let cur = self.stacks[si].active;
        let prev = self.stacks[si].members[cur];
        self.focus_floating = None;
        let mut replaced: Option<u32> = None;
        if prev != member {
            let ghost before = self.stacks@;
            self.stacks[si].active = idx;
            proof {
                assert forall|j: int| 0 <= j < self.stacks@.len() && j != si implies #[trigger] self.stacks@[j]
                    == before[j] by {}
            }
            self.tree.replace_window(prev, member);
            replaced = Some(prev);
        }
        self.tree.focus_window(member);
        replaced
    }

    /// Take `member` out of its tab group, leaving the rest of the group in
    /// place (the next member takes the tile when `member` was shown), then
    /// prune the stacks. False when it was in no group.
    pub fn detach_group_member(&mut self, member: u32, live: &Vec<u32>) -> (r: bool)
        requires
            old(self).wf(),
                        old(self).tree.windows_spec().len() + old(self).stacks@.len() <= WINDOW_LIMIT,
        ensures
            final(self).wf(),
            r == in_some_stack(stacks_view(old(self).stacks@), member),
            !r ==> *final(self) == *old(self),
            r ==> detached(*old(self), *final(self), member, live@),
            final(self).floating@ == old(self).floating@,
            final(self).focus_floating == old(self).focus_floating,
            final(self).fullscreen == old(self).fullscreen,
            final(self).id == old(self).id,
            final(self).mode == old(self).mode,
            final(self).output@ == old(self).output@,
            final(self).tree.windows_spec().len() <= old(self).tree.windows_spec().len() + old(
                self,
            ).stacks@.len(),
            final(self).stacks@.len() <= old(self).stacks@.len(),
    {
        let si = match self.stack_of(member) {
            Some(i) => i,
            None => {
                return false;
            },
        };
        proof {
            lemma_stack_pos(self.stacks@, member, si as int);
            assert(stacks_view(self.stacks@)[si as int].0.contains(member));
        }
        let idx = match first_index(&self.stacks[si].members, member) {
            Some(k) => k,
            None => {
                return false;
            },
        };
        let ghost v = stacks_view(self.stacks@);
        let ghost t0 = self.tree.windows_spec();
        let ghost w0 = *self;
        proof {
            lemma_first_pos(self.stacks@[si as int].members@, member, idx as int);
            assert(v[si as int].0 == self.stacks@[si as int].members@);
        }
        let was_active = idx == self.stacks[si].active;
        let ghost before = self.stacks@;
        self.stacks[si].members.remove(idx);
        if was_active {
            let n = self.stacks[si].members.len();
            let a = if idx < n {
                idx
            } else {
                n - 1
            };
            self.stacks[si].active = a;
            let heir = self.stacks[si].members[a];
            self.tree.replace_window(member, heir);
            self.tree.focus_window(heir);
        } else if idx < self.stacks[si].active {
            self.stacks[si].active = self.stacks[si].active - 1;
        }
        let ghost mid_view = v.update(si as int, after_leave(v[si as int], idx as int));
        proof {
            assert forall|j: int| 0 <= j < self.stacks@.len() && j != si implies #[trigger] self.stacks@[j]
                == before[j] by {}
            assert(stacks_view(self.stacks@) =~= mid_view);
        }
        let ghost mid = *self;
        proof {
            let left = after_leave(v[si as int], idx as int);
            assert(left.0 == self.stacks@[si as int].members@);
            assert(left.1 == self.stacks@[si as int].active);
            if was_active {
                assert(mid.tree.windows_spec() == replace_ids(t0, member, left.0[left.1 as int]));
            } else {
                assert(mid.tree.windows_spec() == t0);
            }
        }
        self.prune_stacks(live);
        proof {
            assert(stacks_view(self.stacks@) == pruned_stacks(mid_view, live@));
            reveal(detached);
            assert(detached(w0, *self, member, live@));
            lemma_pruned_stacks_len(mid_view, live@);
        }
        true
    }
}

/// The desk `mid` that `join_group` works on: `dragged` out of its own group
/// (if it was in one), out of the floating layer and out of the tree.
pub open spec fn lifted(old: Workspace, mid: Workspace, dragged: u32, live: Seq<u32>) -> bool {
    exists|d1: Workspace|
        #![trigger d1.tree]
        {
            &&& (if in_some_stack(stacks_view(old.stacks@), dragged) {
                detached(old, d1, dragged, live)
            } else {
                d1 == old
            })
            &&& mid.floating@ == d1.floating@.filter(entry_neq(dragged))
            &&& mid.focus_floating == if d1.focus_floating == Some(dragged) {
                None
            } else {
                d1.focus_floating
            }
            &&& mid.tree.windows_spec() == without(d1.tree.windows_spec(), dragged)
            &&& mid.stacks == d1.stacks
            &&& mid.fullscreen == d1.fullscreen
            &&& mid.id == old.id
            &&& mid.wf()
        }
}

impl Workspace {
    /// Drop `dragged` onto `target` to group them: `dragged` leaves its own
    /// group and the floating layer, then takes `target`'s tile, joining
    /// `target`'s group or forming a new two-tab group with it. Returns the
    /// window that gave up the tile (to unmap), if any.
    pub fn join_group(&mut self, target: u32, dragged: u32, live: &Vec<u32>) -> (r: Option<u32>)
        requires
            old(self).wf(),
                        old(self).tree.windows_spec().len() + old(self).stacks@.len() <= WINDOW_LIMIT,
        ensures
            final(self).wf(),
            target == dragged ==> *final(self) == *old(self) && r is None,
            target != dragged ==> exists|mid: Workspace|
                {
                    &&& lifted(*old(self), mid, dragged, live@)
                    &&& final(self).floating@ == mid.floating@
                    &&& final(self).fullscreen == mid.fullscreen
                    &&& final(self).focus_floating == mid.focus_floating
                    &&& (if in_some_stack(stacks_view(mid.stacks@), target) {
                        let si = stack_pos(mid.stacks@, target);
                        let s = mid.stacks@[si];
                        let prev = s.members@[s.active as int];
                        &&& r == Some(prev)
                        &&& final(self).stacks@.len() == mid.stacks@.len()
                        &&& forall|j: int|
                            0 <= j < mid.stacks@.len() && j != si ==> #[trigger] final(self).stacks@[j]
                                == mid.stacks@[j]
                        &&& final(self).stacks@[si].members@ == s.members@.push(dragged)
                        &&& final(self).stacks@[si].active == s.members@.len()
                        &&& final(self).tree.windows_spec() == replace_ids(
                            mid.tree.windows_spec(),
                            prev,
                            dragged,
                        )
                        &&& final(self).tree.windows_spec().contains(dragged)
                            ==> final(self).tree.focused_spec() == Some(dragged)
                    } else if mid.tree.windows_spec().contains(target) {
                        &&& r == Some(target)
                        &&& final(self).stacks@.len() == mid.stacks@.len() + 1
                        &&& forall|j: int|
                            0 <= j < mid.stacks@.len() ==> #[trigger] final(self).stacks@[j]
                                == mid.stacks@[j]
                        &&& final(self).stacks@.last().members@ == seq![target, dragged]
                        &&& final(self).stacks@.last().active == 1
                        &&& final(self).tree.windows_spec() == replace_ids(
                            mid.tree.windows_spec(),
                            target,
                            dragged,
                        )
                        &&& final(self).tree.focused_spec() == Some(dragged)
                    } else {
                        &&& r is None
                        &&& final(self).stacks == mid.stacks
                        &&& final(self).tree.windows_spec() == mid.tree.windows_spec()
                    })
                },
    {
        if target == dragged {
            return None;
        }
        let ghost w0 = *self;
        let was_grouped = self.detach_group_member(dragged, live);
        let ghost d1 = *self;
        proof {
            if !was_grouped {
                assert(d1 == w0);
            }
        }
        self.floating = drop_entry(&self.floating, dragged);
        if self.focus_floating == Some(dragged) {
            self.focus_floating = None;
        }
        self.tree.remove(dragged);
        let ghost mid = *self;
        proof {
            d1.tree.windows_spec().lemma_filter_len(crate::layout::neq_pred(dragged));
            assert(mid.wf());
            assert(if in_some_stack(stacks_view(w0.stacks@), dragged) {
                detached(w0, d1, dragged, live@)
            } else {
                d1 == w0
            });
            assert(lifted(w0, mid, dragged, live@));
        }
        let out = match self.stack_of(target) {
            Some(si) => {
                proof {
                    lemma_stack_pos(self.stacks@, target, si as int);
                    assert(stacks_view(self.stacks@)[si as int].0.contains(target));
                }
                let cur = self.stacks[si].active;
                let prev = self.stacks[si].members[cur];
                let ghost before = self.stacks@;
                self.stacks[si].members.push(dragged);
                self.stacks[si].active = self.stacks[si].members.len() - 1;
                proof {
                    assert forall|j: int| 0 <= j < self.stacks@.len() && j != si implies #[trigger] self.stacks@[j]
                        == before[j] by {}
                }
                self.tree.replace_window(prev, dragged);
                Some(prev)
            },
            None => {
                if !self.tree.contains(target) {
                    return None;
                }
                self.tree.replace_window(target, dragged);
                proof {
                    let t = mid.tree.windows_spec();
                    let j = choose|j: int| 0 <= j < t.len() && t[j] == target;
                    assert(replace_ids(t, target, dragged)[j] == dragged);
                }
                self.stacks.push(Stack { members: vec![target, dragged], active: 1 });
                Some(target)
            },
        };
        self.tree.focus_window(dragged);
        out
    }
}

} // verus!
