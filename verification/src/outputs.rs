//! Monitors and new windows: which display mode an output is driven in,
//! what a connector rescan tears down and brings up, where the outputs sit
//! on the desktop, and which windows (X11 or Wayland) open floating.
use vstd::prelude::*;

verus! {

/// A display mode as the connector lists it.
#[derive(Debug, Clone, Copy, PartialEq, Eq, Structural)]
pub struct ModeInfo {
    pub w: u16,
    pub h: u16,
    /// Vertical refresh in Hz.
    pub refresh: u32,
    /// The connector marks this mode as preferred.
    pub preferred: bool,
}

pub open spec fn dist(a: u32, b: u32) -> int {
    if a >= b {
        a - b
    } else {
        b - a
    }
}

/// Among the first `n` modes, the one of exactly `w`x`h` whose refresh is
/// closest to `hz` (the first such on ties), or with no `hz` the last mode
/// of that size.
pub open spec fn best_sized(modes: Seq<ModeInfo>, n: int, w: i32, h: i32, hz: Option<u32>) -> Option<int>
    decreases n,
{
    if n <= 0 {
        None
    } else {
        let prev = best_sized(modes, n - 1, w, h, hz);
        let m = modes[n - 1];
        if m.w != w || m.h != h {
            prev
        } else {
            match hz {
                None => Some(n - 1),
                Some(want) => match prev {
                    Some(b) => if dist(modes[b].refresh, want) > dist(m.refresh, want) {
                        Some(n - 1)
                    } else {
                        prev
                    },
                    None => Some(n - 1),
                },
            }
        }
    }
}

/// The first mode of `w`x`h` refreshing at exactly `hz`, among the first `n`.
pub open spec fn exact_mode(modes: Seq<ModeInfo>, n: int, w: i32, h: i32, hz: u32) -> Option<int>
    decreases n,
{
    if n <= 0 {
        None
    } else {
        match exact_mode(modes, n - 1, w, h, hz) {
            Some(i) => Some(i),
            None => {
                let m = modes[n - 1];
                if m.w == w && m.h == h && m.refresh == hz {
                    Some(n - 1)
                } else {
                    None
                }
            },
        }
    }
}

/// The first preferred mode, among the first `n`.
pub open spec fn first_preferred(modes: Seq<ModeInfo>, n: int) -> Option<int>
    decreases n,
{
    if n <= 0 {
        None
    } else {
        match first_preferred(modes, n - 1) {
            Some(i) => Some(i),
            None => if modes[n - 1].preferred {
                Some(n - 1)
            } else {
                None
            },
        }
    }
}

/// The mode an output runs in (as a position in `modes`): with a configured
/// size, an exact refresh match first, else the closest refresh of that
/// size (any, without a configured refresh); otherwise the preferred mode,
/// or the first listed.
pub open spec fn pick_mode_spec(modes: Seq<ModeInfo>, want: Option<(i32, i32, Option<u32>)>) -> Option<
    int,
> {
    let sized = match want {
        Some((w, h, hz)) => match hz {
            Some(f) => match exact_mode(modes, modes.len() as int, w, h, f) {
                Some(i) => Some(i),
                None => best_sized(modes, modes.len() as int, w, h, hz),
            },
            None => best_sized(modes, modes.len() as int, w, h, hz),
        },
        None => None,
    };
    match sized {
        Some(i) => Some(i),
        None => if modes.len() == 0 {
            None
        } else {
            match first_preferred(modes, modes.len() as int) {
                Some(i) => Some(i),
                None => Some(0),
            }
        },
    }
}

/// Each search answers a position among the modes it looked at.
pub proof fn lemma_mode_ranges(modes: Seq<ModeInfo>, n: int, w: i32, h: i32, hz: Option<u32>, f: u32)
    ensures
        best_sized(modes, n, w, h, hz) matches Some(i) ==> 0 <= i < n,
        exact_mode(modes, n, w, h, f) matches Some(i) ==> 0 <= i < n,
        first_preferred(modes, n) matches Some(i) ==> 0 <= i < n,
    decreases n,
{
    if n > 0 {
        lemma_mode_ranges(modes, n - 1, w, h, hz, f);
    }
}

/// The picked mode is one of the listed modes.
pub proof fn lemma_pick_mode_range(modes: Seq<ModeInfo>, want: Option<(i32, i32, Option<u32>)>)
    ensures
        pick_mode_spec(modes, want) matches Some(i) ==> 0 <= i < modes.len(),
{
    match want {
        Some((w, h, hz)) => {
            let f = match hz {
                Some(f) => f,
                None => 0,
            };
            lemma_mode_ranges(modes, modes.len() as int, w, h, hz, f);
        },
        None => {
            lemma_mode_ranges(modes, modes.len() as int, 0, 0, None, 0);
        },
    }
}

fn dist_exec(a: u32, b: u32) -> (r: u32)
    ensures
        r == dist(a, b),
{
    if a >= b {
        a - b
    } else {
        b - a
    }
}

/// Pick the display mode for an output from the modes its connector lists
/// and the configured `(width, height, refresh)`, if any.
pub fn pick_mode(modes: &Vec<ModeInfo>, want: Option<(i32, i32, Option<u32>)>) -> (r: Option<usize>)
    ensures
        r matches Some(i) ==> i < modes@.len(),
        r == match pick_mode_spec(modes@, want) {
            Some(i) => Some(i as usize),
            None => None,
        },
{
    if let Some((w, h, hz)) = want {
        let mut best: Option<usize> = None;
        let mut i: usize = 0;
        while i < modes.len()
            invariant
                want == Some((w, h, hz)),
                i <= modes@.len(),
                hz matches Some(f) ==> exact_mode(modes@, i as int, w, h, f) is None,
                best == match best_sized(modes@, i as int, w, h, hz) {
                    Some(b) => Some(b as usize),
                    None => None,
                },
                best matches Some(b) ==> b < i,
            decreases modes.len() - i,
        {
            proof {
                lemma_best_range(modes@, i as int, w, h, hz);
                lemma_best_range(modes@, i + 1, w, h, hz);
            }
            let m = modes[i];
            if m.w as i32 == w && m.h as i32 == h {
                match hz {
                    Some(want_hz) => {
                        if m.refresh == want_hz {
                            proof {
                                assert(exact_mode(modes@, i + 1, w, h, want_hz) == Some(i as int));
                                lemma_exact_stays(modes@, i + 1, modes@.len() as int, w, h, want_hz);
                            }
                            return Some(i);
                        }
                        let better = match best {
                            Some(b) => dist_exec(modes[b].refresh, want_hz) > dist_exec(m.refresh, want_hz),
                            None => true,
                        };
                        if better {
                            best = Some(i);
                        }
                    },
                    None => {
                        best = Some(i);
                    },
                }
            }
            proof {
                assert(m == modes@[i as int]);
                assert(best == match best_sized(modes@, i + 1, w, h, hz) {
                    Some(b) => Some(b as usize),
                    None => None,
                });
            }
            i += 1;
        }
        if best.is_some() {
            return best;
        }
    }
    let mut k: usize = 0;
    while k < modes.len() && !modes[k].preferred
        invariant
            k <= modes@.len(),
            first_preferred(modes@, k as int) is None,
        decreases modes.len() - k,
    {
        k += 1;
    }
    proof {
        if k < modes@.len() {
            assert(first_preferred(modes@, k + 1) == Some(k as int));
            lemma_preferred_stays(modes@, k + 1, modes@.len() as int);
        }
    }
    if modes.len() == 0 {
        None
    } else if k < modes.len() {
        Some(k)
    } else {
        Some(0)
    }
}

proof fn lemma_best_range(modes: Seq<ModeInfo>, n: int, w: i32, h: i32, hz: Option<u32>)
    ensures
        best_sized(modes, n, w, h, hz) matches Some(b) ==> 0 <= b < n,
    decreases n,
{
    if n > 0 {
        lemma_best_range(modes, n - 1, w, h, hz);
    }
}

proof fn lemma_exact_stays(modes: Seq<ModeInfo>, n: int, m: int, w: i32, h: i32, hz: u32)
    requires
        0 <= n <= m,
        exact_mode(modes, n, w, h, hz) is Some,
    ensures
        exact_mode(modes, m, w, h, hz) == exact_mode(modes, n, w, h, hz),
    decreases m - n,
{
    if n < m {
        lemma_exact_stays(modes, n, m - 1, w, h, hz);
    }
}

proof fn lemma_preferred_stays(modes: Seq<ModeInfo>, n: int, m: int)
    requires
        0 <= n <= m,
        first_preferred(modes, n) is Some,
    ensures
        first_preferred(modes, m) == first_preferred(modes, n),
    decreases m - n,
{
    if n < m {
        lemma_preferred_stays(modes, n, m - 1);
    }
}

/// The EWMH window types that always float.
#[derive(Debug, Clone, Copy, PartialEq, Eq, Structural)]
pub enum WindowType {
    Dialog,
    Utility,
    Toolbar,
    Splash,
    Menu,
    DropdownMenu,
    PopupMenu,
    Tooltip,
    Notification,
    /// Any other type (normal windows, docks, ...).
    Other,
}

/// What an X11 window says about itself when it maps.
#[derive(Debug, Clone, Copy)]
pub struct X11Hints {
    pub popup: bool,
    pub transient: bool,
    pub window_type: Option<WindowType>,
    pub min_size: Option<(i32, i32)>,
    pub max_size: Option<(i32, i32)>,
}

/// Popups, transients, dialog-like types and fixed-size windows float.
pub open spec fn should_float_spec(h: X11Hints) -> bool {
    h.popup || h.transient || (h.window_type matches Some(t) && t != WindowType::Other) || match (
        h.min_size,
        h.max_size,
    ) {
        (Some(min), Some(max)) => min.0 > 0 && min.1 > 0 && min == max,
        _ => false,
    }
}

/// Whether an X11 window opens floating instead of tiled.
pub fn x11_should_float(h: &X11Hints) -> (r: bool)
    ensures
        r == should_float_spec(*h),
{
    if h.popup || h.transient {
        return true;
    }
    match h.window_type {
        Some(WindowType::Other) | None => {},
        Some(_) => {
            return true;
        },
    }
    match (h.min_size, h.max_size) {
        (Some(min), Some(max)) => min.0 > 0 && min.1 > 0 && min.0 == max.0 && min.1 == max.1,
        _ => false,
    }
}

/// A size range pinned to one positive size (splash screens, updaters).
pub open spec fn fixed_size(min: (i32, i32), max: (i32, i32)) -> bool {
    min.0 > 0 && min.1 > 0 && min.0 == max.0 && min.1 == max.1
}

/// How a Wayland toplevel is classified on its first commits: not yet
/// (`None`) while it has no app id, no parent and no fixed size; then
/// floating when its app id is `vendi-float` (menu terminals), it is a
/// dialog with a parent, or its size is fixed; tiled otherwise.
pub fn classify_toplevel(app_id: &str, has_parent: bool, min: (i32, i32), max: (i32, i32)) -> (r:
    Option<bool>)
    ensures
        r is None <==> (app_id@.len() == 0 && !has_parent && !fixed_size(min, max)),
        r matches Some(f) ==> f == (app_id@ == "vendi-float"@ || has_parent || fixed_size(min, max)),
{
    let fixed = min.0 > 0 && min.1 > 0 && min.0 == max.0 && min.1 == max.1;
    let named = crate::text::chars_of(app_id).len() > 0;
    if !named && !has_parent && !fixed {
        return None;
    }
    Some(crate::text::str_eq(app_id, "vendi-float") || has_parent || fixed)
}

/// A connector as a rescan finds it.
#[derive(Debug, Clone)]
pub struct ConnectorInfo {
    pub id: u32,
    pub connected: bool,
    pub modes: Vec<ModeInfo>,
}

/// An output being driven: its connector, the mode it runs, and the mode
/// the config asks for on it.
#[derive(Debug, Clone, Copy)]
pub struct DrivenOutput {
    pub connector: u32,
    pub mode: ModeInfo,
    pub want: Option<(i32, i32, Option<u32>)>,
}

/// Position of the first connector `id` in `cs`.
pub open spec fn find_connector(cs: Seq<ConnectorInfo>, id: u32) -> Option<int>
    decreases cs.len(),
{
    if cs.len() == 0 {
        None
    } else {
        match find_connector(cs.drop_last(), id) {
            Some(j) => Some(j),
            None => if cs.last().id == id {
                Some(cs.len() - 1)
            } else {
                None
            },
        }
    }
}

/// An output must be torn down: its connector is gone or unplugged, or the
/// mode it would be given now is not the one it runs.
pub open spec fn output_stale(o: DrivenOutput, cs: Seq<ConnectorInfo>) -> bool {
    match find_connector(cs, o.connector) {
        None => true,
        Some(j) => !cs[j].connected || !(pick_mode_spec(cs[j].modes@, o.want) matches Some(k)
            && cs[j].modes@[k] == o.mode),
    }
}

/// Positions of the stale outputs among the first `n`, in order.
pub open spec fn stale_among(outs: Seq<DrivenOutput>, cs: Seq<ConnectorInfo>, n: int) -> Seq<usize>
    decreases n,
{
    if n <= 0 {
        Seq::empty()
    } else if output_stale(outs[n - 1], cs) {
        stale_among(outs, cs, n - 1).push((n - 1) as usize)
    } else {
        stale_among(outs, cs, n - 1)
    }
}

/// Some driven output uses connector `id`.
pub open spec fn driven(outs: Seq<DrivenOutput>, id: u32) -> bool {
    exists|i: int| 0 <= i < outs.len() && (#[trigger] outs[i]).connector == id
}

/// Positions of the connectors among the first `n` that are plugged in and
/// drive nothing yet, in order.
pub open spec fn fresh_among(outs: Seq<DrivenOutput>, cs: Seq<ConnectorInfo>, n: int) -> Seq<usize>
    decreases n,
{
    if n <= 0 {
        Seq::empty()
    } else if cs[n - 1].connected && !driven(outs, cs[n - 1].id) {
        fresh_among(outs, cs, n - 1).push((n - 1) as usize)
    } else {
        fresh_among(outs, cs, n - 1)
    }
}

/// A connector found is one of the list.
proof fn lemma_find_connector_range(cs: Seq<ConnectorInfo>, id: u32)
    ensures
        find_connector(cs, id) matches Some(j) ==> 0 <= j < cs.len() && cs[j].id == id,
    decreases cs.len(),
{
    if cs.len() > 0 {
        lemma_find_connector_range(cs.drop_last(), id);
    }
}

fn find_connector_exec(cs: &Vec<ConnectorInfo>, id: u32) -> (r: Option<usize>)
    ensures
        r is None <==> find_connector(cs@, id) is None,
        r matches Some(j) ==> j < cs@.len() && find_connector(cs@, id) == Some(j as int),
{
    proof {
        lemma_find_connector_range(cs@, id);
    }
    let mut i: usize = 0;
    while i < cs.len()
        invariant
            i <= cs@.len(),
            find_connector(cs@.take(i as int), id) is None,
        decreases cs.len() - i,
    {
        proof {
            let t = cs@.take(i + 1);
            assert(t.drop_last() =~= cs@.take(i as int));
        }
        if cs[i].id == id {
            proof {
                lemma_find_connector_prefix(cs@, id, i + 1);
            }
            return Some(i);
        }
        i += 1;
    }
    proof {
        assert(cs@.take(cs@.len() as int) =~= cs@);
    }
    None
}

/// A connector found in a prefix is found at the same place in the whole.
proof fn lemma_find_connector_prefix(cs: Seq<ConnectorInfo>, id: u32, n: int)
    requires
        0 <= n <= cs.len(),
        find_connector(cs.take(n), id) is Some,
    ensures
        find_connector(cs, id) == find_connector(cs.take(n), id),
    decreases cs.len() - n,
{
    if n < cs.len() {
        let t = cs.take(n + 1);
        assert(t.drop_last() =~= cs.take(n));
        lemma_find_connector_prefix(cs, id, n + 1);
    } else {
        assert(cs.take(n) =~= cs);
    }
}

/// Which driven outputs a rescan tears down (positions in `outs`, in order).
pub fn stale_outputs(outs: &Vec<DrivenOutput>, cs: &Vec<ConnectorInfo>) -> (r: Vec<usize>)
    ensures
        r@ == stale_among(outs@, cs@, outs@.len() as int),
{
    let mut r: Vec<usize> = Vec::new();
    let mut i: usize = 0;
    while i < outs.len()
        invariant
            i <= outs@.len(),
            r@ == stale_among(outs@, cs@, i as int),
        decreases outs.len() - i,
    {
        let o = outs[i];
        let stale = match find_connector_exec(cs, o.connector) {
            None => true,
            Some(j) => {
                let c = &cs[j];
                if !c.connected {
                    true
                } else {
                    proof {
                        lemma_pick_mode_range(c.modes@, o.want);
                    }
                    let nm = c.modes.len();
                    match pick_mode(&c.modes, o.want) {
                        Some(k) => {
                            let m = c.modes[k];
                            let same = m == o.mode;
                            proof {
                                let ks = pick_mode_spec(c.modes@, o.want)->0;
                                assert(0 <= ks < nm);
                                assert(k == ks as usize);
                                assert(k as int == ks);
                            }
                            !same
                        },
                        None => true,
                    }
                }
            },
        };
        proof {
            assert(stale == output_stale(outs@[i as int], cs@));
        }
        if stale {
            r.push(i);
        }
        i += 1;
    }
    r
}

/// Which connectors a rescan brings up: plugged in and driving nothing yet
/// (positions in `cs`, in order). Outputs torn down by the same rescan still
/// count as driving their connector.
pub fn fresh_connectors(outs: &Vec<DrivenOutput>, cs: &Vec<ConnectorInfo>) -> (r: Vec<usize>)
    ensures
        r@ == fresh_among(outs@, cs@, cs@.len() as int),
{
    let mut r: Vec<usize> = Vec::new();
    let mut j: usize = 0;
    while j < cs.len()
        invariant
            j <= cs@.len(),
            r@ == fresh_among(outs@, cs@, j as int),
        decreases cs.len() - j,
    {
        let mut used = false;
        let mut i: usize = 0;
        while i < outs.len()
            invariant
                i <= outs@.len(),
                j < cs@.len(),
                used == exists|k: int| 0 <= k < i && (#[trigger] outs@[k]).connector == cs@[j as int].id,
            decreases outs.len() - i,
        {
            if outs[i].connector == cs[j].id {
                used = true;
            }
            i += 1;
        }
        if cs[j].connected && !used {
            r.push(j);
        }
        j += 1;
    }
    r
}

/// `a` sorts before or equal to `b` (strings compare character by
/// character, as `String`'s order compares their UTF-8 bytes).
pub open spec fn name_le(a: Seq<char>, b: Seq<char>) -> bool
    decreases a.len(),
{
    if a.len() == 0 {
        true
    } else if b.len() == 0 {
        false
    } else if a[0] < b[0] {
        true
    } else if a[0] > b[0] {
        false
    } else {
        name_le(a.drop_first(), b.drop_first())
    }
}

/// Either of two names sorts first.
pub proof fn lemma_name_le_total(a: Seq<char>, b: Seq<char>)
    ensures
        name_le(a, b) || name_le(b, a),
    decreases a.len(),
{
    if a.len() > 0 && b.len() > 0 && a[0] == b[0] {
        lemma_name_le_total(a.drop_first(), b.drop_first());
    }
}

/// The name order is transitive.
pub proof fn lemma_name_le_trans(a: Seq<char>, b: Seq<char>, c: Seq<char>)
    requires
        name_le(a, b),
        name_le(b, c),
    ensures
        name_le(a, c),
    decreases a.len(),
{
    if a.len() > 0 && b.len() > 0 && c.len() > 0 && a[0] == b[0] && b[0] == c[0] {
        lemma_name_le_trans(a.drop_first(), b.drop_first(), c.drop_first());
    }
}

/// Whether `a` sorts before or equal to `b`.
pub fn name_le_exec(a: &str, b: &str) -> (r: bool)
    ensures
        r == name_le(a@, b@),
{
    let x = crate::text::chars_of(a);
    let y = crate::text::chars_of(b);
    let mut i: usize = 0;
    proof {
        assert(x@.skip(0) =~= x@);
        assert(y@.skip(0) =~= y@);
    }
    while i < x.len() && i < y.len() && x[i] == y[i]
        invariant
            i <= x@.len(),
            i <= y@.len(),
            x@ == a@,
            y@ == b@,
            name_le(a@, b@) == name_le(x@.skip(i as int), y@.skip(i as int)),
        decreases x.len() - i,
    {
        proof {
            assert(x@.skip(i as int).drop_first() =~= x@.skip(i + 1));
            assert(y@.skip(i as int).drop_first() =~= y@.skip(i + 1));
        }
        i += 1;
    }
    if i == x.len() {
        proof {
            assert(x@.skip(i as int).len() == 0);
        }
        true
    } else if i == y.len() {
        false
    } else {
        proof {
            assert(x@.skip(i as int)[0] == x@[i as int]);
            assert(y@.skip(i as int)[0] == y@[i as int]);
        }
        x[i] < y[i]
    }
}

/// An output to place on the desktop: its name, its width, and the position
/// the config gives it, if any.
#[derive(Debug, Clone)]
pub struct OutputSlot {
    pub name: String,
    pub width: i32,
    pub position: Option<(i32, i32)>,
}

/// `ord` lists each position below `n` exactly once.
pub open spec fn is_order(ord: Seq<usize>, n: int) -> bool {
    &&& ord.len() == n
    &&& forall|k: int| 0 <= k < ord.len() ==> (#[trigger] ord[k]) < n
    &&& forall|a: int, b: int| 0 <= a < b < ord.len() ==> (#[trigger] ord[a]) != (#[trigger] ord[b])
}

/// `ord` lists the outputs by name.
pub open spec fn by_name(outs: Seq<OutputSlot>, ord: Seq<usize>) -> bool {
    forall|a: int, b: int|
        0 <= a < b < ord.len() ==> name_le(
            (#[trigger] outs[ord[a] as int]).name@,
            (#[trigger] outs[ord[b] as int]).name@,
        )
}

/// The outputs in name order (positions in `outs`); equal names keep their
/// order.
pub fn name_order(outs: &Vec<OutputSlot>) -> (r: Vec<usize>)
    ensures
        is_order(r@, outs@.len() as int),
        by_name(outs@, r@),
{
    let mut r: Vec<usize> = Vec::new();
    let mut i: usize = 0;
    while i < outs.len()
        invariant
            i <= outs@.len(),
            is_order(r@, i as int),
            by_name(outs@, r@),
        decreases outs.len() - i,
    {
        let mut p: usize = 0;
        while p < r.len() && name_le_exec(outs[r[p]].name.as_str(), outs[i].name.as_str())
            invariant
                p <= r@.len(),
                i < outs@.len(),
                is_order(r@, i as int),
                forall|q: int| 0 <= q < p ==> name_le(
                    (#[trigger] outs@[r@[q] as int]).name@,
                    outs@[i as int].name@,
                ),
            decreases r.len() - p,
        {
            p += 1;
        }
        let ghost old_r = r@;
        proof {
            if p < r@.len() {
                lemma_name_le_total(outs@[r@[p as int] as int].name@, outs@[i as int].name@);
            }
        }
        r.insert(p, i);
        proof {
            assert forall|a: int, b: int| 0 <= a < b < r@.len() implies name_le(
                (#[trigger] outs@[r@[a] as int]).name@,
                (#[trigger] outs@[r@[b] as int]).name@,
            ) by {
                if b == p {
                    assert(r@[a] == old_r[a]);
                } else if a == p {
                    assert(r@[b] == old_r[b - 1]);
                    if b - 1 != p {
                        assert(name_le(
                            outs@[old_r[p as int] as int].name@,
                            outs@[old_r[b - 1] as int].name@,
                        ));
                        lemma_name_le_trans(
                            outs@[i as int].name@,
                            outs@[old_r[p as int] as int].name@,
                            outs@[old_r[b - 1] as int].name@,
                        );
                    }
                } else if b < p {
                    assert(r@[a] == old_r[a] && r@[b] == old_r[b]);
                } else if a < p {
                    assert(r@[a] == old_r[a] && r@[b] == old_r[b - 1]);
                } else {
                    assert(r@[a] == old_r[a - 1] && r@[b] == old_r[b - 1]);
                }
            }
            assert forall|a: int, b: int| 0 <= a < b < r@.len() implies (#[trigger] r@[a]) != (
            #[trigger] r@[b]) by {
                if a == p {
                    assert(r@[b] == old_r[b - 1]);
                } else if b == p {
                    assert(r@[a] == old_r[a]);
                } else if b < p {
                    assert(r@[a] == old_r[a] && r@[b] == old_r[b]);
                } else if a < p {
                    assert(r@[a] == old_r[a] && r@[b] == old_r[b - 1]);
                } else {
                    assert(r@[a] == old_r[a - 1] && r@[b] == old_r[b - 1]);
                }
            }
            assert forall|k: int| 0 <= k < r@.len() implies (#[trigger] r@[k]) < i + 1 by {
                if k < p {
                    assert(r@[k] == old_r[k]);
                } else if k > p {
                    assert(r@[k] == old_r[k - 1]);
                }
            }
        }
        i += 1;
    }
    r
}

/// The widths of the outputs without a configured position among the first
/// `k` of `ord`, added up.
pub open spec fn packed_x(outs: Seq<OutputSlot>, ord: Seq<usize>, k: int) -> int
    decreases k,
{
    if k <= 0 {
        0
    } else {
        packed_x(outs, ord, k - 1) + if outs[ord[k - 1] as int].position is None {
            outs[ord[k - 1] as int].width as int
        } else {
            0
        }
    }
}

/// Where the `k`-th output of `ord` goes: its configured position, else
/// packed left to right from 0 after the unconfigured ones before it.
pub open spec fn placed_at(outs: Seq<OutputSlot>, ord: Seq<usize>, k: int) -> (i32, i32) {
    match outs[ord[k] as int].position {
        Some(p) => p,
        None => (packed_x(outs, ord, k) as i32, 0),
    }
}

/// Lay the outputs out: in name order, each at its configured position or
/// packed left to right from 0 (so removals leave no gaps). Each entry is
/// (position in `outs`, where it goes), in name order.
pub fn place_outputs(outs: &Vec<OutputSlot>) -> (r: Vec<(usize, (i32, i32))>)
    requires
        outs@.len() <= 0x8000,
        forall|i: int| 0 <= i < outs@.len() ==> 0 <= #[trigger] outs@[i].width <= 0xffff,
    ensures
        is_order(r@.map_values(|e: (usize, (i32, i32))| e.0), outs@.len() as int),
        by_name(outs@, r@.map_values(|e: (usize, (i32, i32))| e.0)),
        forall|k: int|
            0 <= k < r@.len() ==> (#[trigger] r@[k]).1 == placed_at(
                outs@,
                r@.map_values(|e: (usize, (i32, i32))| e.0),
                k,
            ),
{
    let ord = name_order(outs);
    let mut r: Vec<(usize, (i32, i32))> = Vec::new();
    let mut x: i32 = 0;
    let mut k: usize = 0;
    while k < ord.len()
        invariant
            k <= ord@.len(),
            is_order(ord@, outs@.len() as int),
            outs@.len() <= 0x8000,
            forall|i: int| 0 <= i < outs@.len() ==> 0 <= #[trigger] outs@[i].width <= 0xffff,
            x == packed_x(outs@, ord@, k as int),
            0 <= x <= k * 0xffff,
            r@.len() == k,
            forall|j: int| 0 <= j < k ==> (#[trigger] r@[j]).0 == ord@[j],
            forall|j: int| 0 <= j < k ==> (#[trigger] r@[j]).1 == placed_at(outs@, ord@, j),
        decreases ord.len() - k,
    {
        let i = ord[k];
        let o = &outs[i];
        let pos = match o.position {
            Some(p) => p,
            None => (x, 0),
        };
        r.push((i, pos));
        if o.position.is_none() {
            proof {
                assert(k * 0xffff + 0xffff <= 0x8000 * 0xffff) by (nonlinear_arith)
                    requires
                        k < 0x8000,
                ;
            }
            x = x + o.width;
        }
        proof {
            assert(x <= (k + 1) * 0xffff) by (nonlinear_arith)
                requires
                    x <= k * 0xffff + 0xffff,
            ;
        }
        k += 1;
    }
    proof {
        assert(r@.map_values(|e: (usize, (i32, i32))| e.0) =~= ord@);
    }
    r
}

} // verus!
