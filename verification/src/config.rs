//! Config model: the KDL document as plain values, keybind and action
//! parsing, bind merging (a later bind on the same chord replaces the earlier
//! one in place) and theme resolution.
//!
//! Reading the file and decoding KDL into `Document` happen outside the
//! library; everything after that is here.
use vstd::prelude::*;

use crate::input::{Action, Dir, Modifiers};
use crate::layout::Direction;
use crate::text::{
    chars_are, chars_of, has_char, is_whitespace, is_ws, lower_range, range_is, string_from, trim_range,
    trim_spec, ascii_lower,
};

verus! {

// ── KDL schema ───────────────────────────────────────────────────────────────
/// The whole config file.
pub struct Document {
    pub binds: Option<BindsBlock>,
    pub theme: Option<ThemeBlock>,
}

/// The `theme { .. }` block; every entry is optional.
pub struct ThemeBlock {
    /// Border color of the focused window, "#rrggbb".
    pub accent: Option<String>,
    /// Border color of unfocused windows.
    pub inactive: Option<String>,
    /// Desktop clear color (visible until the wallpaper covers it).
    pub background: Option<String>,
    /// Window corner radius, logical px.
    pub radius: Option<i64>,
    /// Border thickness, logical px.
    pub border: Option<i64>,
    /// Gap between tiles, logical px.
    pub gap: Option<i64>,
    /// Gap at the screen edges, logical px.
    pub margin: Option<i64>,
    /// Wallpaper image path (png/jpg).
    pub wallpaper: Option<String>,
    /// Frosted-glass blur behind overlay surfaces.
    pub blur: Option<bool>,
}

/// The `binds { .. }` block.
pub struct BindsBlock {
    pub entries: Vec<BindEntry>,
}

/// One `bind "<chord>" "<action>"` line.
pub struct BindEntry {
    pub chord: String,
    pub action: String,
}

// ── numbers ──────────────────────────────────────────────────────────────────
pub open spec fn is_digit(c: char) -> bool {
    '0' <= c && c <= '9'
}

pub open spec fn all_digits(d: Seq<char>) -> bool {
    forall|j: int| 0 <= j < d.len() ==> is_digit(#[trigger] d[j])
}

/// The decimal value of a digit string.
pub open spec fn digits_value(d: Seq<char>) -> int
    decreases d.len(),
{
    if d.len() == 0 {
        0
    } else {
        10 * digits_value(d.drop_last()) + (d.last() as int - 48)
    }
}

/// The digits after an optional leading `+`.
pub open spec fn unsigned_digits(s: Seq<char>) -> Seq<char> {
    if s.len() > 0 && s[0] == '+' {
        s.drop_first()
    } else {
        s
    }
}

/// `u32::from_str`: an optional `+`, then one or more decimal digits whose
/// value fits.
pub open spec fn parse_u32_spec(s: Seq<char>) -> Option<u32> {
    let d = unsigned_digits(s);
    if d.len() > 0 && all_digits(d) && digits_value(d) <= u32::MAX {
        Some(digits_value(d) as u32)
    } else {
        None
    }
}

proof fn lemma_digits_prefix(d: Seq<char>, m: int)
    requires
        0 <= m <= d.len(),
        all_digits(d),
    ensures
        0 <= digits_value(d.take(m)) <= digits_value(d),
    decreases d.len(),
{
    if d.len() > 0 {
        if m == d.len() {
            lemma_digits_prefix(d.drop_last(), 0);
            assert(d.take(m) =~= d);
        } else {
            lemma_digits_prefix(d.drop_last(), m);
            assert(d.drop_last().take(m) =~= d.take(m));
        }
        assert(is_digit(d[d.len() - 1]));
    } else {
        assert(d.take(m) =~= d);
    }
}

/// `v[lo..hi]` read as a `u32` the way `str::parse::<u32>` reads it.
pub fn parse_u32(v: &Vec<char>, lo: usize, hi: usize) -> (r: Option<u32>)
    requires
        lo <= hi <= v.len(),
    ensures
        r == parse_u32_spec(v@.subrange(lo as int, hi as int)),
{
    let ghost s = v@.subrange(lo as int, hi as int);
    let mut start = lo;
    if start < hi && v[start] == '+' {
        start += 1;
    }
    let ghost d = v@.subrange(start as int, hi as int);
    proof {
        assert(unsigned_digits(s) =~= d);
    }
    if start == hi {
        return None;
    }
    let mut i = start;
    let mut acc: u64 = 0;
    proof {
        assert(v@.subrange(start as int, start as int) =~= Seq::<char>::empty());
    }
    while i < hi
        invariant
            lo <= start <= i <= hi <= v.len(),
            d == v@.subrange(start as int, hi as int),
            s == v@.subrange(lo as int, hi as int),
            unsigned_digits(s) == d,
            acc == digits_value(v@.subrange(start as int, i as int)),
            acc <= u32::MAX,
            all_digits(v@.subrange(start as int, i as int)),
        decreases hi - i,
    {
        let c = v[i];
        if !('0' <= c && c <= '9') {
            proof {
                assert(d[i - start] == c);
                assert(!is_digit(d[i - start]));
            }
            return None;
        }
        let digit = ((c as u32) - 48) as u64;
        proof {
            let p = v@.subrange(start as int, i + 1);
            assert(p.drop_last() =~= v@.subrange(start as int, i as int));
            assert(p.last() == c);
        }
        acc = acc * 10 + digit;
        if acc > 0xffff_ffff {
            proof {
                if all_digits(d) {
                    lemma_digits_prefix(d, i + 1 - start);
                    assert(d.take(i + 1 - start) =~= v@.subrange(start as int, i + 1));
                }
            }
            return None;
        }
        i += 1;
    }
    proof {
        assert(v@.subrange(start as int, i as int) =~= d);
    }
    Some(acc as u32)
}

// ── actions ──────────────────────────────────────────────────────────────────
/// Why an action string was refused.
#[derive(Debug, Clone)]
pub enum ActionError {
    /// The first word names no action.
    UnknownVerb(String),
    /// `workspace` / `move-to-workspace` without a valid `u32` after it.
    BadWorkspaceNumber,
}

/// `s[..k]` is the first word of `s`: no whitespace in it, and whitespace
/// (or the end) right after it.
pub open spec fn verb_end(s: Seq<char>, k: int) -> bool {
    &&& 0 <= k <= s.len()
    &&& forall|j: int| 0 <= j < k ==> !is_ws(#[trigger] s[j])
    &&& k < s.len() ==> is_ws(s[k])
}

pub open spec fn verb_len(s: Seq<char>) -> int {
    choose|k: int| verb_end(s, k)
}

/// The verb: everything before the first whitespace character.
pub open spec fn verb_of(s: Seq<char>) -> Seq<char> {
    s.take(verb_len(s))
}

/// The argument: what follows that whitespace character, trimmed (empty
/// when there is none).
pub open spec fn rest_of(s: Seq<char>) -> Seq<char> {
    if verb_len(s) < s.len() {
        trim_spec(s.skip(verb_len(s) + 1))
    } else {
        Seq::empty()
    }
}

proof fn lemma_verb_len(s: Seq<char>, k: int)
    requires
        verb_end(s, k),
    ensures
        verb_len(s) == k,
{
    let c = verb_len(s);
    assert(verb_end(s, c));
    if c < k {
        assert(!is_ws(s[c]));
    }
    if k < c {
        assert(!is_ws(s[k]));
    }
}

/// What a verb asks for, before its argument is looked at.
pub enum Verb {
    Spawn,
    Workspace,
    MoveToWorkspace,
    Plain(Action),
    Unknown,
}

pub open spec fn verb_spec(verb: Seq<char>) -> Verb {
    if verb == "spawn"@ {
        Verb::Spawn
    } else if verb == "close"@ {
        Verb::Plain(Action::Close)
    } else if verb == "focus-next"@ {
        Verb::Plain(Action::FocusNext)
    } else if verb == "focus-prev"@ {
        Verb::Plain(Action::FocusPrev)
    } else if verb == "focus-left"@ {
        Verb::Plain(Action::FocusDir(Dir::Left))
    } else if verb == "focus-right"@ {
        Verb::Plain(Action::FocusDir(Dir::Right))
    } else if verb == "focus-up"@ {
        Verb::Plain(Action::FocusDir(Dir::Up))
    } else if verb == "focus-down"@ {
        Verb::Plain(Action::FocusDir(Dir::Down))
    } else if verb == "move-left"@ {
        Verb::Plain(Action::MoveDir(Dir::Left))
    } else if verb == "move-right"@ {
        Verb::Plain(Action::MoveDir(Dir::Right))
    } else if verb == "move-up"@ {
        Verb::Plain(Action::MoveDir(Dir::Up))
    } else if verb == "move-down"@ {
        Verb::Plain(Action::MoveDir(Dir::Down))
    } else if verb == "resize-left"@ {
        Verb::Plain(Action::ResizeDir(Dir::Left))
    } else if verb == "resize-right"@ {
        Verb::Plain(Action::ResizeDir(Dir::Right))
    } else if verb == "resize-up"@ {
        Verb::Plain(Action::ResizeDir(Dir::Up))
    } else if verb == "resize-down"@ {
        Verb::Plain(Action::ResizeDir(Dir::Down))
    } else if verb == "split-horizontal"@ {
        Verb::Plain(Action::SetNextSplit(Direction::Horizontal))
    } else if verb == "split-vertical"@ {
        Verb::Plain(Action::SetNextSplit(Direction::Vertical))
    } else if verb == "workspace"@ {
        Verb::Workspace
    } else if verb == "move-to-workspace"@ {
        Verb::MoveToWorkspace
    } else if verb == "toggle-floating"@ {
        Verb::Plain(Action::ToggleFloating)
    } else if verb == "fullscreen"@ {
        Verb::Plain(Action::ToggleFullscreen)
    } else if verb == "overview"@ {
        Verb::Plain(Action::ToggleOverview)
    } else if verb == "lock"@ {
        Verb::Plain(Action::Lock)
    } else if verb == "quit"@ {
        Verb::Plain(Action::Quit)
    } else {
        Verb::Unknown
    }
}

/// Whether `a` is what the action string `s` parses to.
pub open spec fn action_parses(s: Seq<char>, a: Action) -> bool {
    match verb_spec(verb_of(s)) {
        Verb::Spawn => a matches Action::Spawn(c) && c@ == rest_of(s),
        Verb::Plain(p) => a == p,
        Verb::Workspace => parse_u32_spec(rest_of(s)) matches Some(n) && a == Action::Workspace(n),
        Verb::MoveToWorkspace => parse_u32_spec(rest_of(s)) matches Some(n) && a
            == Action::MoveToWorkspace(n),
        Verb::Unknown => false,
    }
}

/// Whether the action string `s` parses at all.
pub open spec fn action_ok(s: Seq<char>) -> bool {
    match verb_spec(verb_of(s)) {
        Verb::Unknown => false,
        Verb::Workspace | Verb::MoveToWorkspace => parse_u32_spec(rest_of(s)) is Some,
        _ => true,
    }
}

/// Parse an action string: a verb, then (for `spawn`, `workspace` and
/// `move-to-workspace`) an argument after the first whitespace.
pub fn parse_action(s: &str) -> (r: Result<Action, ActionError>)
    ensures
        r is Ok <==> action_ok(s@),
        r matches Ok(a) ==> action_parses(s@, a),
        r matches Err(e) ==> match verb_spec(verb_of(s@)) {
            Verb::Unknown => e matches ActionError::UnknownVerb(v) && v@ == verb_of(s@),
            _ => e is BadWorkspaceNumber,
        },
{
    let v = chars_of(s);
    let mut k: usize = 0;
    while k < v.len() && !is_whitespace(v[k])
        invariant
            k <= v@.len(),
            forall|j: int| 0 <= j < k ==> !is_ws(#[trigger] v@[j]),
        decreases v.len() - k,
    {
        k += 1;
    }
    let (rlo, rhi) = if k < v.len() {
        trim_range(&v, k + 1, v.len())
    } else {
        (k, k)
    };
    proof {
        assert(verb_end(v@, k as int));
        lemma_verb_len(v@, k as int);
        assert(v@.subrange(0, k as int) =~= verb_of(s@));
        if k < v.len() {
            assert(v@.subrange(k + 1, v@.len() as int) =~= v@.skip(k + 1));
        } else {
            assert(v@.subrange(rlo as int, rhi as int) =~= Seq::<char>::empty());
        }
        assert(v@.subrange(rlo as int, rhi as int) == rest_of(s@));
    }
    let a = if range_is(&v, 0, k, "spawn") {
        Action::Spawn(string_from(&v, rlo, rhi))
    } else if range_is(&v, 0, k, "close") {
        Action::Close
    } else if range_is(&v, 0, k, "focus-next") {
        Action::FocusNext
    } else if range_is(&v, 0, k, "focus-prev") {
        Action::FocusPrev
    } else if range_is(&v, 0, k, "focus-left") {
        Action::FocusDir(Dir::Left)
    } else if range_is(&v, 0, k, "focus-right") {
        Action::FocusDir(Dir::Right)
    } else if range_is(&v, 0, k, "focus-up") {
        Action::FocusDir(Dir::Up)
    } else if range_is(&v, 0, k, "focus-down") {
        Action::FocusDir(Dir::Down)
    } else if range_is(&v, 0, k, "move-left") {
        Action::MoveDir(Dir::Left)
    } else if range_is(&v, 0, k, "move-right") {
        Action::MoveDir(Dir::Right)
    } else if range_is(&v, 0, k, "move-up") {
        Action::MoveDir(Dir::Up)
    } else if range_is(&v, 0, k, "move-down") {
        Action::MoveDir(Dir::Down)
    } else if range_is(&v, 0, k, "resize-left") {
        Action::ResizeDir(Dir::Left)
    } else if range_is(&v, 0, k, "resize-right") {
        Action::ResizeDir(Dir::Right)
    } else if range_is(&v, 0, k, "resize-up") {
        Action::ResizeDir(Dir::Up)
    } else if range_is(&v, 0, k, "resize-down") {
        Action::ResizeDir(Dir::Down)
    } else if range_is(&v, 0, k, "split-horizontal") {
        Action::SetNextSplit(Direction::Horizontal)
    } else if range_is(&v, 0, k, "split-vertical") {
        Action::SetNextSplit(Direction::Vertical)
    } else if range_is(&v, 0, k, "workspace") {
        match parse_u32(&v, rlo, rhi) {
            Some(n) => Action::Workspace(n),
            None => {
                return Err(ActionError::BadWorkspaceNumber);
            },
        }
    } else if range_is(&v, 0, k, "move-to-workspace") {
        match parse_u32(&v, rlo, rhi) {
            Some(n) => Action::MoveToWorkspace(n),
            None => {
                return Err(ActionError::BadWorkspaceNumber);
            },
        }
    } else if range_is(&v, 0, k, "toggle-floating") {
        Action::ToggleFloating
    } else if range_is(&v, 0, k, "fullscreen") {
        Action::ToggleFullscreen
    } else if range_is(&v, 0, k, "overview") {
        Action::ToggleOverview
    } else if range_is(&v, 0, k, "lock") {
        Action::Lock
    } else if range_is(&v, 0, k, "quit") {
        Action::Quit
    } else {
        return Err(ActionError::UnknownVerb(string_from(&v, 0, k)));
    };
    Ok(a)
}

// ── chords ───────────────────────────────────────────────────────────────────
/// Compiled keybind: the modifiers that must be held, and the xkb keysym.
#[derive(Debug, Clone, Copy, PartialEq, Eq, Hash, Structural)]
pub struct Chord {
    pub logo: bool,
    pub ctrl: bool,
    pub alt: bool,
    pub shift: bool,
    /// xkb keysym
    pub key: u32,
}

/// Why a chord string was refused.
#[derive(Debug, Clone)]
pub enum ChordError {
    /// A `+`-separated part before the key is no modifier (lower-cased).
    UnknownModifier(String),
    /// xkb knows no keysym by that name.
    UnknownKey(String),
}

/// `s` split at every `sep` (`str::split`): always at least one piece.
pub open spec fn split_on(s: Seq<char>, sep: char) -> Seq<Seq<char>>
    decreases s.len(),
{
    if s.len() == 0 {
        seq![Seq::<char>::empty()]
    } else {
        let r = split_on(s.drop_last(), sep);
        if s.last() == sep {
            r.push(Seq::<char>::empty())
        } else {
            r.update(r.len() - 1, r.last().push(s.last()))
        }
    }
}

proof fn lemma_split_len(s: Seq<char>, sep: char)
    ensures
        split_on(s, sep).len() >= 1,
    decreases s.len(),
{
    if s.len() > 0 {
        lemma_split_len(s.drop_last(), sep);
    }
}

proof fn lemma_split_step(v: Seq<char>, i: int, sep: char)
    requires
        0 <= i < v.len(),
    ensures
        split_on(v.take(i + 1), sep) == if v[i] == sep {
            split_on(v.take(i), sep).push(Seq::<char>::empty())
        } else {
            split_on(v.take(i), sep).update(
                split_on(v.take(i), sep).len() - 1,
                split_on(v.take(i), sep).last().push(v[i]),
            )
        },
{
    assert(v.take(i + 1).drop_last() =~= v.take(i));
}

pub open spec fn no_mods() -> Modifiers {
    Modifiers { logo: false, ctrl: false, alt: false, shift: false }
}

/// `m` with the modifier called `name` added, if `name` is one.
pub open spec fn add_modifier(m: Modifiers, name: Seq<char>) -> Option<Modifiers> {
    if name == "super"@ || name == "logo"@ || name == "mod"@ || name == "win"@ {
        Some(Modifiers { logo: true, ..m })
    } else if name == "ctrl"@ || name == "control"@ {
        Some(Modifiers { ctrl: true, ..m })
    } else if name == "alt"@ || name == "mod1"@ {
        Some(Modifiers { alt: true, ..m })
    } else if name == "shift"@ {
        Some(Modifiers { shift: true, ..m })
    } else {
        None
    }
}

/// A modifier part as it is matched: trimmed and lower-cased.
pub open spec fn modifier_name(piece: Seq<char>) -> Seq<char> {
    ascii_lower(trim_spec(piece))
}

/// The modifiers named by `ms`, or the first name that is none.
pub open spec fn mods_spec(ms: Seq<Seq<char>>) -> Result<Modifiers, Seq<char>>
    decreases ms.len(),
{
    if ms.len() == 0 {
        Ok(no_mods())
    } else {
        match mods_spec(ms.drop_last()) {
            Err(e) => Err(e),
            Ok(m) => match add_modifier(m, modifier_name(ms.last())) {
                Some(m2) => Ok(m2),
                None => Err(modifier_name(ms.last())),
            },
        }
    }
}

/// The modifiers of a chord string (every part but the last).
pub open spec fn chord_mods(s: Seq<char>) -> Result<Modifiers, Seq<char>> {
    mods_spec(split_on(s, '+').drop_last())
}

/// The key name of a chord string (its last part, trimmed).
pub open spec fn key_name_of(s: Seq<char>) -> Seq<char> {
    trim_spec(split_on(s, '+').last())
}

pub open spec fn chord_of(m: Modifiers, key: u32) -> Chord {
    Chord { logo: m.logo, ctrl: m.ctrl, alt: m.alt, shift: m.shift, key }
}

/// The chord a chord string compiles to, given the keysym `key` that xkb
/// gives for its key name (0, `NoSymbol`, for an unknown name); None when it
/// is refused.
pub open spec fn chord_spec(s: Seq<char>, key: u32) -> Option<Chord> {
    match chord_mods(s) {
        Ok(m) => if key != 0 {
            Some(chord_of(m, key))
        } else {
            None
        },
        Err(_) => None,
    }
}

/// What xkb is asked about for a bind line: the key name of its chord; or
/// nothing, when its modifiers already fail (the line is refused whatever
/// the keysym) or the name holds a NUL (xkb takes the name as a C string,
/// which cannot carry one; such a name is no key).
pub open spec fn key_lookup(e: BindEntry) -> Option<Seq<char>> {
    match chord_mods(e.chord@) {
        Ok(_) => if key_name_of(e.chord@).contains('\0') {
            None
        } else {
            Some(key_name_of(e.chord@))
        },
        Err(_) => None,
    }
}

/// An optional string by its characters.
pub open spec fn lookup_view(o: Option<String>) -> Option<Seq<char>> {
    match o {
        Some(s) => Some(s@),
        None => None,
    }
}

/// The key names that xkb must look up, one per bind line in order (`None`
/// for a line with nothing to look up).
pub fn key_lookups(entries: &Vec<BindEntry>) -> (r: Vec<Option<String>>)
    ensures
        r@.len() == entries@.len(),
        forall|i: int|
            0 <= i < entries@.len() ==> lookup_view(#[trigger] r@[i]) == key_lookup(entries@[i]),
{
    let mut out: Vec<Option<String>> = Vec::new();
    push_lookups(entries, &mut out);
    out
}

fn push_lookups(entries: &Vec<BindEntry>, out: &mut Vec<Option<String>>)
    ensures
        final(out)@.len() == old(out)@.len() + entries@.len(),
        forall|i: int| 0 <= i < old(out)@.len() ==> final(out)@[i] == old(out)@[i],
        forall|j: int|
            old(out)@.len() <= j < final(out)@.len() ==> lookup_view(#[trigger] final(out)@[j])
                == key_lookup(entries@[j - old(out)@.len()]),
{
    let ghost start = out@;
    let mut k: usize = 0;
    while k < entries.len()
        invariant
            k <= entries@.len(),
            out@.len() == start.len() + k,
            forall|i: int| 0 <= i < start.len() ==> out@[i] == start[i],
            forall|j: int|
                start.len() <= j < out@.len() ==> lookup_view(#[trigger] out@[j]) == key_lookup(
                    entries@[j - start.len()],
                ),
        decreases entries.len() - k,
    {
        let o = match split_chord(entries[k].chord.as_str()) {
            Ok((_, name)) => if has_char(name.as_str(), '\0') {
                None
            } else {
                Some(name)
            },
            Err(_) => None,
        };
        out.push(o);
        k += 1;
    }
}

/// Split a chord string at `+` and read every part but the last as a
/// modifier (case-insensitive); returns the modifiers and the trimmed key name.
pub fn split_chord(s: &str) -> (r: Result<(Modifiers, String), ChordError>)
    ensures
        match chord_mods(s@) {
            Ok(m) => r matches Ok((m2, k)) && m2 == m && k@ == key_name_of(s@),
            Err(n) => r matches Err(ChordError::UnknownModifier(x)) && x@ == n,
        },
{
    let v = chars_of(s);
    let mut m = Modifiers { logo: false, ctrl: false, alt: false, shift: false };
    let mut start: usize = 0;
    let mut i: usize = 0;
    let ghost mut done: Seq<Seq<char>> = Seq::empty();
    proof {
        assert(v@.take(0) =~= Seq::<char>::empty());
        assert(v@.subrange(0, 0) =~= Seq::<char>::empty());
        assert(split_on(v@.take(0), '+') =~= done.push(v@.subrange(0, 0)));
    }
    while i < v.len()
        invariant
            v@ == s@,
            start <= i <= v@.len(),
            split_on(v@.take(i as int), '+') == done.push(v@.subrange(start as int, i as int)),
            mods_spec(done) == Ok::<Modifiers, Seq<char>>(m),
        decreases v.len() - i,
    {
        proof {
            lemma_split_step(v@, i as int, '+');
        }
        if v[i] == '+' {
            let (lo, hi) = trim_range(&v, start, i);
            let name = lower_range(&v, lo, hi);
            let ghost piece = v@.subrange(start as int, i as int);
            proof {
                assert(name@ == modifier_name(piece));
                let nd = done.push(piece);
                assert(nd.drop_last() =~= done);
            }
            if chars_are(&name, "super") || chars_are(&name, "logo") || chars_are(&name, "mod")
                || chars_are(&name, "win") {
                m = Modifiers { logo: true, ..m };
            } else if chars_are(&name, "ctrl") || chars_are(&name, "control") {
                m = Modifiers { ctrl: true, ..m };
            } else if chars_are(&name, "alt") || chars_are(&name, "mod1") {
                m = Modifiers { alt: true, ..m };
            } else if chars_are(&name, "shift") {
                m = Modifiers { shift: true, ..m };
            } else {
                let bad = string_from(&name, 0, name.len());
                proof {
                    assert(name@.subrange(0, name@.len() as int) =~= name@);
                    let nd = done.push(piece);
                    assert(mods_spec(nd) == Err::<Modifiers, Seq<char>>(name@));
                    let b = split_on(v@.take(i + 1), '+');
                    assert(b == nd.push(Seq::<char>::empty()));
                    assert(b.drop_last() =~= nd);
                    assert(b.drop_last().take(nd.len() as int) =~= nd);
                    lemma_mods_first_error(nd, v@, i as int + 1);
                }
                return Err(ChordError::UnknownModifier(bad));
            }
            proof {
                done = done.push(piece);
                assert(v@.subrange(i + 1, i + 1) =~= Seq::<char>::empty());
            }
            start = i + 1;
        } else {
            proof {
                assert(v@.subrange(start as int, i + 1) =~= v@.subrange(start as int, i as int).push(v@[i as int]));
                assert(done.push(v@.subrange(start as int, i as int)).update(
                    done.len() as int,
                    v@.subrange(start as int, i as int).push(v@[i as int]),
                ) =~= done.push(v@.subrange(start as int, i + 1)));
            }
        }
        i += 1;
    }
    let (lo, hi) = trim_range(&v, start, v.len());
    let key = string_from(&v, lo, hi);
    proof {
        assert(v@.take(v@.len() as int) =~= v@);
        let p = split_on(v@, '+');
        assert(p.drop_last() =~= done);
        assert(p.last() == v@.subrange(start as int, v@.len() as int));
    }
    Ok((m, key))
}

/// Once a prefix of the parts names no modifier, the whole chord fails with
/// that name.
proof fn lemma_mods_first_error(done: Seq<Seq<char>>, v: Seq<char>, j: int)
    requires
        mods_spec(done) is Err,
        0 <= j <= v.len(),
        split_on(v.take(j), '+').len() >= 1,
        split_on(v.take(j), '+').drop_last().take(done.len() as int) == done,
        split_on(v.take(j), '+').drop_last().len() >= done.len(),
    ensures
        mods_spec(split_on(v, '+').drop_last()) == mods_spec(done),
    decreases v.len() - j,
{
    if j < v.len() {
        lemma_split_step(v, j, '+');
        let a = split_on(v.take(j), '+');
        let b = split_on(v.take(j + 1), '+');
        if v[j] == '+' {
            assert(b.drop_last() =~= a);
            assert(a.take(done.len() as int) =~= a.drop_last().take(done.len() as int));
        } else {
            assert(b.drop_last() =~= a.drop_last());
        }
        lemma_split_len(v.take(j + 1), '+');
        lemma_mods_first_error(done, v, j + 1);
    } else {
        assert(v.take(j) =~= v);
        lemma_mods_prefix_error(split_on(v, '+').drop_last(), done.len() as int);
    }
}

/// A refusal among the first `k` parts is the refusal of the whole list.
proof fn lemma_mods_prefix_error(ms: Seq<Seq<char>>, k: int)
    requires
        0 <= k <= ms.len(),
        mods_spec(ms.take(k)) is Err,
    ensures
        mods_spec(ms) == mods_spec(ms.take(k)),
    decreases ms.len() - k,
{
    if k < ms.len() {
        assert(ms.take(k + 1).drop_last() =~= ms.take(k));
        lemma_mods_prefix_error(ms, k + 1);
    } else {
        assert(ms.take(k) =~= ms);
    }
}

/// Finish a chord once its key name has been looked up: keysym 0
/// (`NoSymbol`) means the name is unknown.
pub fn chord_with_key(m: Modifiers, name: String, keysym: u32) -> (r: Result<Chord, ChordError>)
    ensures
        keysym == 0 ==> (r matches Err(ChordError::UnknownKey(n)) && n@ == name@),
        keysym != 0 ==> r == Ok::<Chord, ChordError>(chord_of(m, keysym)),
{
    if keysym == 0 {
        Err(ChordError::UnknownKey(name))
    } else {
        Ok(Chord { logo: m.logo, ctrl: m.ctrl, alt: m.alt, shift: m.shift, key: keysym })
    }
}

/// Build a `Chord` from runtime modifier state + keysym for lookup.
pub fn chord_from(mods: &Modifiers, sym: u32) -> (r: Chord)
    ensures
        r == chord_of(*mods, sym),
{
    Chord { logo: mods.logo, ctrl: mods.ctrl, alt: mods.alt, shift: mods.shift, key: sym }
}

// ── colors ───────────────────────────────────────────────────────────────────
/// A color as 8-bit channels (straight alpha).
#[derive(Debug, Clone, Copy, PartialEq, Eq, Structural)]
pub struct Rgba {
    pub r: u8,
    pub g: u8,
    pub b: u8,
    pub a: u8,
}

/// Bytes of `c` in UTF-8.
pub open spec fn utf8_width(c: char) -> int {
    if (c as u32) < 0x80 {
        1
    } else if (c as u32) < 0x800 {
        2
    } else if (c as u32) < 0x10000 {
        3
    } else {
        4
    }
}

/// Bytes of `s` in UTF-8 (`str::len`).
pub open spec fn byte_len(s: Seq<char>) -> int
    decreases s.len(),
{
    if s.len() == 0 {
        0
    } else {
        byte_len(s.drop_last()) + utf8_width(s.last())
    }
}

proof fn lemma_byte_len_prefix(s: Seq<char>, i: int)
    requires
        0 <= i <= s.len(),
    ensures
        0 <= byte_len(s.take(i)) <= byte_len(s),
    decreases s.len(),
{
    if s.len() > 0 {
        if i == s.len() {
            assert(s.take(i) =~= s);
            lemma_byte_len_prefix(s.drop_last(), 0);
        } else {
            lemma_byte_len_prefix(s.drop_last(), i);
            assert(s.drop_last().take(i) =~= s.take(i));
        }
    } else {
        assert(s.take(i) =~= s);
    }
}

pub open spec fn hex_val(c: char) -> Option<u8> {
    if '0' <= c && c <= '9' {
        Some(((c as u32) - 48) as u8)
    } else if 'a' <= c && c <= 'f' {
        Some(((c as u32) - 87) as u8)
    } else if 'A' <= c && c <= 'F' {
        Some(((c as u32) - 55) as u8)
    } else {
        None
    }
}

/// `u8::from_str_radix(a b, 16)` on two one-byte characters: two hex
/// digits, or `+` and one hex digit.
pub open spec fn pair_value(a: char, b: char) -> Option<u8> {
    if a == '+' {
        hex_val(b)
    } else {
        match (hex_val(a), hex_val(b)) {
            (Some(x), Some(y)) => Some((16 * x + y) as u8),
            _ => None,
        }
    }
}

/// Reading `h` two bytes at a time, as the color parser slices it.
pub enum PairWalk {
    /// Every slice held a valid pair: their values.
    Values(Seq<u8>),
    /// A slice held no valid pair: parsing stops there.
    Bad,
    /// A slice would end inside a character, which panics.
    Split,
}

pub open spec fn pair_walk(h: Seq<char>) -> PairWalk
    decreases h.len(),
{
    if h.len() == 0 {
        PairWalk::Values(Seq::empty())
    } else if utf8_width(h[0]) == 1 {
        if h.len() >= 2 && utf8_width(h[1]) == 1 {
            match pair_value(h[0], h[1]) {
                Some(x) => match pair_walk(h.skip(2)) {
                    PairWalk::Values(r) => PairWalk::Values(seq![x] + r),
                    other => other,
                },
                None => PairWalk::Bad,
            }
        } else if h.len() >= 2 {
            PairWalk::Split
        } else {
            PairWalk::Bad
        }
    } else if utf8_width(h[0]) == 2 {
        PairWalk::Bad
    } else {
        PairWalk::Split
    }
}

/// `vs` followed by the outcome `w`.
pub open spec fn prepend(vs: Seq<u8>, w: PairWalk) -> PairWalk {
    match w {
        PairWalk::Values(r) => PairWalk::Values(vs + r),
        other => other,
    }
}

proof fn lemma_walk_len(h: Seq<char>)
    ensures
        pair_walk(h) matches PairWalk::Values(v) ==> 2 * v.len() == byte_len(h),
    decreases h.len(),
{
    if h.len() >= 2 && utf8_width(h[0]) == 1 && utf8_width(h[1]) == 1 {
        lemma_walk_len(h.skip(2));
        lemma_byte_len_split(h, 2);
        assert(h.take(2).drop_last() =~= h.take(1));
        assert(h.take(1).drop_last() =~= Seq::<char>::empty());
        assert(byte_len(Seq::<char>::empty()) == 0);
        assert(h.take(1).last() == h[0]);
        assert(h.take(2).last() == h[1]);
        assert(byte_len(h.take(1)) == 1);
        assert(byte_len(h.take(2)) == 2);
    }
}

proof fn lemma_byte_len_split(s: Seq<char>, k: int)
    requires
        0 <= k <= s.len(),
    ensures
        byte_len(s) == byte_len(s.take(k)) + byte_len(s.skip(k)),
    decreases s.len() - k,
{
    if k < s.len() {
        lemma_byte_len_split(s, k + 1);
        assert(s.take(k + 1).drop_last() =~= s.take(k));
        lemma_byte_len_front(s.skip(k));
        assert(s.skip(k).drop_first() =~= s.skip(k + 1));
        assert(s.skip(k)[0] == s[k]);
    } else {
        assert(s.take(k) =~= s);
        assert(s.skip(k) =~= Seq::<char>::empty());
    }
}

proof fn lemma_byte_len_front(s: Seq<char>)
    requires
        s.len() > 0,
    ensures
        byte_len(s) == utf8_width(s[0]) + byte_len(s.drop_first()),
    decreases s.len(),
{
    if s.len() > 1 {
        lemma_byte_len_front(s.drop_last());
        assert(s.drop_last().drop_first() =~= s.drop_first().drop_last());
    } else {
        assert(s.drop_first() =~= Seq::<char>::empty());
        assert(s.drop_last() =~= Seq::<char>::empty());
    }
}

/// The hex digits of a color string: what follows `#` after trimming.
pub open spec fn hex_digits_of(s: Seq<char>) -> Option<Seq<char>> {
    let t = trim_spec(s);
    if t.len() > 0 && t[0] == '#' {
        Some(t.drop_first())
    } else {
        None
    }
}

/// The inputs on which the color parser slices through a character.
pub open spec fn hex_color_panics(s: Seq<char>) -> bool {
    match hex_digits_of(s) {
        Some(h) => (byte_len(h) == 6 || byte_len(h) == 8) && pair_walk(h) is Split,
        None => false,
    }
}

/// `"#rrggbb"` or `"#rrggbbaa"` (after trimming) as a color; alpha is 255
/// when left out.
pub open spec fn hex_color_spec(s: Seq<char>) -> Option<Rgba> {
    match hex_digits_of(s) {
        None => None,
        Some(h) => if byte_len(h) != 6 && byte_len(h) != 8 {
            None
        } else {
            match pair_walk(h) {
                PairWalk::Values(v) => Some(
                    Rgba {
                        r: v[0],
                        g: v[1],
                        b: v[2],
                        a: if byte_len(h) == 8 {
                            v[3]
                        } else {
                            255
                        },
                    },
                ),
                _ => None,
            }
        },
    }
}

fn utf8_width_of(c: char) -> (r: usize)
    ensures
        r == utf8_width(c),
{
    let u = c as u32;
    if u < 0x80 {
        1
    } else if u < 0x800 {
        2
    } else if u < 0x10000 {
        3
    } else {
        4
    }
}

fn hex_digit(c: char) -> (r: Option<u8>)
    ensures
        r == hex_val(c),
{
    if '0' <= c && c <= '9' {
        Some(((c as u32) - 48) as u8)
    } else if 'a' <= c && c <= 'f' {
        Some(((c as u32) - 87) as u8)
    } else if 'A' <= c && c <= 'F' {
        Some(((c as u32) - 55) as u8)
    } else {
        None
    }
}

fn hex_pair(a: char, b: char) -> (r: Option<u8>)
    ensures
        r == pair_value(a, b),
{
    if a == '+' {
        hex_digit(b)
    } else {
        match (hex_digit(a), hex_digit(b)) {
            (Some(x), Some(y)) => Some(16 * x + y),
            _ => None,
        }
    }
}

/// Parse `"#rrggbb"` / `"#rrggbbaa"` into a color.
pub fn hex_color(s: &str) -> (r: Option<Rgba>)
    requires
        !hex_color_panics(s@),
    ensures
        r == hex_color_spec(s@),
{
    let v = chars_of(s);
    let (lo, hi) = trim_range(&v, 0, v.len());
    proof {
        assert(v@.subrange(0, v@.len() as int) =~= v@);
    }
    if lo == hi || v[lo] != '#' {
        return None;
    }
    let start = lo + 1;
    let ghost h = v@.subrange(start as int, hi as int);
    proof {
        assert(trim_spec(s@).drop_first() =~= h);
    }
    // byte length, stopping once it is past 8
    let mut n: usize = 0;
    let mut i = start;
    while i < hi
        invariant
            start <= i <= hi <= v@.len(),
            h == v@.subrange(start as int, hi as int),
            hex_digits_of(s@) == Some(h),
            n == byte_len(h.take(i - start)),
            n <= 8,
        decreases hi - i,
    {
        proof {
            assert(h.take(i + 1 - start).drop_last() =~= h.take(i - start));
        }
        n = n + utf8_width_of(v[i]);
        if n > 8 {
            proof {
                lemma_byte_len_prefix(h, i + 1 - start);
            }
            return None;
        }
        i += 1;
    }
    proof {
        assert(h.take(hi - start) =~= h);
    }
    if n != 6 && n != 8 {
        return None;
    }
    let mut vals: Vec<u8> = Vec::new();
    let mut i = start;
    proof {
        assert(v@.subrange(start as int, hi as int) =~= h);
        assert(vals@ + Seq::<u8>::empty() =~= vals@);
    }
    while i < hi
        invariant
            start <= i <= hi <= v@.len(),
            h == v@.subrange(start as int, hi as int),
            hex_digits_of(s@) == Some(h),
            n == byte_len(h),
            n == 6 || n == 8,
            !(pair_walk(h) is Split),
            pair_walk(h) == prepend(vals@, pair_walk(v@.subrange(i as int, hi as int))),
        decreases hi - i,
    {
        let ghost rest = v@.subrange(i as int, hi as int);
        let w = utf8_width_of(v[i]);
        if w == 1 && i + 1 < hi && utf8_width_of(v[i + 1]) == 1 {
            match hex_pair(v[i], v[i + 1]) {
                Some(x) => {
                    proof {
                        assert(rest.skip(2) =~= v@.subrange(i + 2, hi as int));
                        assert(rest[0] == v@[i as int] && rest[1] == v@[i + 1]);
                        match pair_walk(rest.skip(2)) {
                            PairWalk::Values(r) => {
                                assert(vals@ + (seq![x] + r) =~= vals@.push(x) + r);
                            },
                            _ => {},
                        }
                    }
                    vals.push(x);
                    i += 2;
                },
                None => {
                    proof {
                        assert(rest[0] == v@[i as int] && rest[1] == v@[i + 1]);
                    }
                    return None;
                },
            }
        } else {
            proof {
                assert(rest[0] == v@[i as int]);
                if i + 1 < hi {
                    assert(rest[1] == v@[i + 1]);
                }
            }
            return None;
        }
    }
    proof {
        assert(v@.subrange(hi as int, hi as int) =~= Seq::<char>::empty());
        assert(vals@ + Seq::<u8>::empty() =~= vals@);
        lemma_walk_len(h);
    }
    let a = if n == 8 {
        vals[3]
    } else {
        255
    };
    Some(Rgba { r: vals[0], g: vals[1], b: vals[2], a })
}

// ── binds ────────────────────────────────────────────────────────────────────
/// A compiled bind, with the text it came from (for the bind list served
/// over IPC).
pub struct Bind {
    pub chord: Chord,
    pub chord_text: String,
    pub action_text: String,
    pub action: Action,
}

pub open spec fn has_chord(bs: Seq<Bind>, c: Chord) -> bool {
    exists|i: int| 0 <= i < bs.len() && (#[trigger] bs[i]).chord == c
}

/// Where chord `c` is bound in `bs` (meaningful when it is).
pub open spec fn chord_pos(bs: Seq<Bind>, c: Chord) -> int {
    choose|i: int| 0 <= i < bs.len() && (#[trigger] bs[i]).chord == c
}

/// No chord is bound twice.
pub open spec fn unique_chords(bs: Seq<Bind>) -> bool {
    forall|i: int, j: int| 0 <= i < j < bs.len() ==> (#[trigger] bs[i]).chord != (#[trigger] bs[j]).chord
}

/// `bs` with `b` added: it replaces the bind on its chord in place, or goes
/// at the end.
pub open spec fn upsert(bs: Seq<Bind>, b: Bind) -> Seq<Bind> {
    if has_chord(bs, b.chord) {
        bs.update(chord_pos(bs, b.chord), b)
    } else {
        bs.push(b)
    }
}

/// The binds in `ps` merged in order.
pub open spec fn merged(ps: Seq<Bind>) -> Seq<Bind>
    decreases ps.len(),
{
    if ps.len() == 0 {
        Seq::empty()
    } else {
        upsert(merged(ps.drop_last()), ps.last())
    }
}

proof fn lemma_chord_pos(bs: Seq<Bind>, i: int)
    requires
        unique_chords(bs),
        0 <= i < bs.len(),
    ensures
        has_chord(bs, bs[i].chord),
        chord_pos(bs, bs[i].chord) == i,
{
    assert(bs[i].chord == bs[i].chord);
    let p = chord_pos(bs, bs[i].chord);
    if p < i {
        assert(bs[p].chord != bs[i].chord);
    }
    if i < p {
        assert(bs[i].chord != bs[p].chord);
    }
}

proof fn lemma_upsert_unique(bs: Seq<Bind>, b: Bind)
    requires
        unique_chords(bs),
    ensures
        unique_chords(upsert(bs, b)),
        forall|c: Chord| #[trigger] has_chord(upsert(bs, b), c) <==> has_chord(bs, c) || c == b.chord,
{
    let u = upsert(bs, b);
    if has_chord(bs, b.chord) {
        let p = chord_pos(bs, b.chord);
        assert forall|i: int, j: int| 0 <= i < j < u.len() implies (#[trigger] u[i]).chord != (
        #[trigger] u[j]).chord by {
            if i != p && j != p {
                assert(bs[i].chord != bs[j].chord);
            } else if i == p {
                assert(bs[p].chord != bs[j].chord);
            } else {
                assert(bs[i].chord != bs[p].chord);
            }
        }
        assert forall|c: Chord| #[trigger] has_chord(u, c) <==> has_chord(bs, c) || c == b.chord by {
            if has_chord(bs, c) {
                let i = choose|i: int| 0 <= i < bs.len() && (#[trigger] bs[i]).chord == c;
                assert(u[i].chord == c);
            }
            if c == b.chord {
                assert(u[p].chord == c);
            }
            if has_chord(u, c) {
                let i = choose|i: int| 0 <= i < u.len() && (#[trigger] u[i]).chord == c;
                if i != p {
                    assert(bs[i].chord == c);
                }
            }
        }
    } else {
        assert forall|i: int, j: int| 0 <= i < j < u.len() implies (#[trigger] u[i]).chord != (
        #[trigger] u[j]).chord by {
            if j == bs.len() {
                assert(bs[i].chord != b.chord);
            } else {
                assert(bs[i].chord != bs[j].chord);
            }
        }
        assert forall|c: Chord| #[trigger] has_chord(u, c) <==> has_chord(bs, c) || c == b.chord by {
            if has_chord(bs, c) {
                let i = choose|i: int| 0 <= i < bs.len() && (#[trigger] bs[i]).chord == c;
                assert(u[i].chord == c);
            }
            if c == b.chord {
                assert(u[bs.len() as int].chord == c);
            }
            if has_chord(u, c) {
                let i = choose|i: int| 0 <= i < u.len() && (#[trigger] u[i]).chord == c;
                if i < bs.len() {
                    assert(bs[i].chord == c);
                }
            }
        }
    }
}

/// Merging never binds a chord twice, and binds exactly the chords of `ps`.
pub proof fn law_merged_unique(ps: Seq<Bind>)
    ensures
        unique_chords(merged(ps)),
        forall|c: Chord| #[trigger] has_chord(merged(ps), c) <==> has_chord(ps, c),
    decreases ps.len(),
{
    if ps.len() > 0 {
        law_merged_unique(ps.drop_last());
        lemma_upsert_unique(merged(ps.drop_last()), ps.last());
        assert forall|c: Chord| #[trigger] has_chord(merged(ps), c) <==> has_chord(ps, c) by {
            let q = ps.drop_last();
            if has_chord(q, c) {
                let i = choose|i: int| 0 <= i < q.len() && (#[trigger] q[i]).chord == c;
                assert(ps[i].chord == c);
            }
            if c == ps.last().chord {
                assert(ps[ps.len() - 1].chord == c);
            }
            if has_chord(ps, c) {
                let i = choose|i: int| 0 <= i < ps.len() && (#[trigger] ps[i]).chord == c;
                if i < ps.len() - 1 {
                    assert(q[i].chord == c);
                }
            }
        }
    } else {
        assert(merged(ps) =~= Seq::<Bind>::empty());
    }
}

/// The last bind of a chord wins: after merging, the chord of `ps[i]` is
/// bound to `ps[i]` itself when no later bind names the same chord.
pub proof fn law_last_bind_wins(ps: Seq<Bind>, i: int)
    requires
        0 <= i < ps.len(),
        forall|j: int| i < j < ps.len() ==> (#[trigger] ps[j]).chord != ps[i].chord,
    ensures
        has_chord(merged(ps), ps[i].chord),
        merged(ps)[chord_pos(merged(ps), ps[i].chord)] == ps[i],
    decreases ps.len(),
{
    let c = ps[i].chord;
    let q = ps.drop_last();
    let m = merged(q);
    law_merged_unique(q);
    law_merged_unique(ps);
    lemma_upsert_unique(m, ps.last());
    let u = merged(ps);
    if i == ps.len() - 1 {
        if has_chord(m, c) {
            let p = chord_pos(m, c);
            assert(u[p] == ps[i]);
            lemma_chord_pos(u, p);
        } else {
            assert(u[m.len() as int] == ps[i]);
            lemma_chord_pos(u, m.len() as int);
        }
    } else {
        assert forall|j: int| i < j < q.len() implies (#[trigger] q[j]).chord != q[i].chord by {
            assert(q[j] == ps[j]);
        }
        law_last_bind_wins(q, i);
        let p = chord_pos(m, c);
        assert(m[p] == ps[i]);
        assert(ps.last().chord != c) by {
            assert(ps[ps.len() - 1].chord != c);
        }
        if has_chord(m, ps.last().chord) {
            let p2 = chord_pos(m, ps.last().chord);
            assert(m[p2].chord == ps.last().chord);
            assert(p2 != p);
            assert(u[p] == ps[i]);
        } else {
            assert(u[p] == ps[i]);
        }
        lemma_chord_pos(u, p);
    }
}

/// Add one bind: replace the bind on the same chord in place, or append.
pub fn upsert_bind(binds: &mut Vec<Bind>, b: Bind)
    requires
        unique_chords(old(binds)@),
    ensures
        final(binds)@ == upsert(old(binds)@, b),
        unique_chords(final(binds)@),
{
    proof {
        lemma_upsert_unique(old(binds)@, b);
    }
    let mut i: usize = 0;
    while i < binds.len()
        invariant
            i <= binds@.len(),
            binds@ == old(binds)@,
            unique_chords(old(binds)@),
            unique_chords(upsert(old(binds)@, b)),
            forall|j: int| 0 <= j < i ==> (#[trigger] binds@[j]).chord != b.chord,
        decreases binds.len() - i,
    {
        if binds[i].chord == b.chord {
            proof {
                lemma_chord_pos(binds@, i as int);
            }
            binds[i] = b;
            return;
        }
        i += 1;
    }
    proof {
        assert(!has_chord(binds@, b.chord));
    }
    binds.push(b);
}

/// Merge binds in order; a later bind on a chord replaces the earlier one
/// where it stood.
pub fn merge_binds(parsed: Vec<Bind>) -> (r: Vec<Bind>)
    ensures
        r@ == merged(parsed@),
        unique_chords(r@),
{
    let ghost ps = parsed@;
    proof {
        assert(ps.len() == parsed.len());
    }
    let mut rest = parsed;
    let mut out: Vec<Bind> = Vec::new();
    let mut k: usize = 0;
    proof {
        assert(ps.take(0) =~= Seq::<Bind>::empty());
        assert(rest@ =~= ps.skip(0));
        law_merged_unique(ps.take(0));
    }
    while rest.len() > 0
        invariant
            k <= ps.len() <= usize::MAX,
            rest@ == ps.skip(k as int),
            out@ == merged(ps.take(k as int)),
            unique_chords(out@),
        decreases rest.len(),
    {
        let b = rest.remove(0);
        proof {
            assert(b == ps[k as int]);
            assert(ps.take(k + 1).drop_last() =~= ps.take(k as int));
            assert(ps.take(k + 1).last() == ps[k as int]);
            assert(rest@ =~= ps.skip(k + 1));
        }
        upsert_bind(&mut out, b);
        k += 1;
    }
    proof {
        assert(ps.take(k as int) =~= ps);
    }
    out
}

/// Why the config was refused: the first bind that does not compile.
#[derive(Debug)]
pub enum ConfigError {
    /// The chord text and what is wrong with it.
    Chord(String, ChordError),
    /// The action text and what is wrong with it.
    Action(String, ActionError),
}

/// A bind line compiles, `key` being the keysym of its key name.
pub open spec fn entry_ok(e: BindEntry, key: u32) -> bool {
    chord_spec(e.chord@, key) is Some && action_ok(e.action@)
}

/// `b` is what bind line `e` compiles to.
pub open spec fn bind_from(e: BindEntry, key: u32, b: Bind) -> bool {
    &&& chord_spec(e.chord@, key) == Some(b.chord)
    &&& b.chord_text@ == e.chord@
    &&& b.action_text@ == e.action@
    &&& action_parses(e.action@, b.action)
}

/// `err` is the refusal of bind line `e`: its chord's if that fails, else
/// its action's.
pub open spec fn entry_error(e: BindEntry, key: u32, err: ConfigError) -> bool {
    if chord_spec(e.chord@, key) is None {
        err matches ConfigError::Chord(t, ce) && t@ == e.chord@ && match chord_mods(e.chord@) {
            Err(n) => ce matches ChordError::UnknownModifier(x) && x@ == n,
            Ok(_) => ce matches ChordError::UnknownKey(x) && x@ == key_name_of(e.chord@),
        }
    } else {
        err matches ConfigError::Action(t, ae) && t@ == e.action@ && match verb_spec(
            verb_of(e.action@),
        ) {
            Verb::Unknown => ae matches ActionError::UnknownVerb(v) && v@ == verb_of(e.action@),
            _ => ae is BadWorkspaceNumber,
        }
    }
}

/// Every line before `i` compiles (`keys[j]` being line `j`'s keysym).
pub open spec fn entries_ok_before(es: Seq<BindEntry>, keys: Seq<u32>, i: int) -> bool {
    forall|j: int| 0 <= j < i ==> entry_ok(#[trigger] es[j], keys[j])
}

/// Compile one bind line; `keysym` is what xkb gives for its key name.
pub fn parse_bind(e: BindEntry, keysym: u32) -> (r: Result<Bind, ConfigError>)
    ensures
        r is Ok <==> entry_ok(e, keysym),
        r matches Ok(b) ==> bind_from(e, keysym, b),
        r matches Err(err) ==> entry_error(e, keysym, err),
{
    let BindEntry { chord: chord_text, action: action_text } = e;
    let chord = match split_chord(chord_text.as_str()) {
        Err(ce) => {
            return Err(ConfigError::Chord(chord_text, ce));
        },
        Ok((m, name)) => match chord_with_key(m, name, keysym) {
            Ok(c) => c,
            Err(ce) => {
                return Err(ConfigError::Chord(chord_text, ce));
            },
        },
    };
    let action = match parse_action(action_text.as_str()) {
        Ok(a) => a,
        Err(ae) => {
            return Err(ConfigError::Action(action_text, ae));
        },
    };
    Ok(Bind { chord, chord_text, action_text, action })
}

/// Compile bind lines in order, stopping at the first that does not
/// compile; `keysyms[i]` is what xkb gives for line `i`'s key name.
#[verifier::loop_isolation(false)]
pub fn parse_binds(entries: Vec<BindEntry>, keysyms: &Vec<u32>) -> (r: Result<Vec<Bind>, ConfigError>)
    requires
        keysyms@.len() == entries@.len(),
    ensures
        r is Ok <==> entries_ok_before(entries@, keysyms@, entries@.len() as int),
        r matches Ok(ps) ==> ps@.len() == entries@.len() && forall|i: int|
            0 <= i < entries@.len() ==> bind_from(#[trigger] entries@[i], keysyms@[i], ps@[i]),
        r matches Err(err) ==> exists|i: int|
            0 <= i < entries@.len() && entries_ok_before(entries@, keysyms@, i) && !entry_ok(
                #[trigger] entries@[i],
                keysyms@[i],
            ) && entry_error(entries@[i], keysyms@[i], err),
{
    let ghost es = entries@;
    proof {
        assert(es.len() == entries.len());
    }
    let mut rest = entries;
    let mut out: Vec<Bind> = Vec::new();
    let mut k: usize = 0;
    proof {
        assert(rest@ =~= es.skip(0));
    }
    while rest.len() > 0
        invariant
            k <= es.len() <= usize::MAX,
            keysyms@.len() == es.len(),
            rest@ == es.skip(k as int),
            out@.len() == k,
            entries_ok_before(es, keysyms@, k as int),
            forall|i: int| 0 <= i < k ==> bind_from(#[trigger] es[i], keysyms@[i], out@[i]),
        decreases rest.len(),
    {
        let e = rest.remove(0);
        proof {
            assert(e == es[k as int]);
            assert(rest@ =~= es.skip(k + 1));
        }
        match parse_bind(e, keysyms[k]) {
            Ok(b) => {
                out.push(b);
            },
            Err(err) => {
                proof {
                    assert(!entry_ok(es[k as int], keysyms@[k as int]));
                }
                return Err(err);
            },
        }
        k += 1;
    }
    Ok(out)
}

// ── theme ────────────────────────────────────────────────────────────────────
/// Resolved theme values used by the renderer and the layout.
pub struct Theme {
    pub accent: Rgba,
    pub inactive: Rgba,
    pub background: Rgba,
    /// Window corner radius, logical px.
    pub radius: i64,
    pub border: i32,
    pub gap: i32,
    pub margin: i32,
    pub wallpaper: Option<String>,
    pub blur: bool,
}

impl Theme {
    /// Catppuccin Mocha: mauve accent, surface1 borders, base background.
    pub open spec fn default_spec() -> Theme {
        Theme {
            accent: Rgba { r: 0xcb, g: 0xa6, b: 0xf7, a: 0xff },
            inactive: Rgba { r: 0x45, g: 0x47, b: 0x5a, a: 0xff },
            background: Rgba { r: 0x1e, g: 0x1e, b: 0x2e, a: 0xff },
            radius: 12,
            border: 2,
            gap: 10,
            margin: 14,
            wallpaper: None,
            blur: true,
        }
    }
}

impl Default for Theme {
    fn default() -> (r: Theme)
        ensures
            r == Theme::default_spec(),
    {
        Theme {
            accent: Rgba { r: 0xcb, g: 0xa6, b: 0xf7, a: 0xff },
            inactive: Rgba { r: 0x45, g: 0x47, b: 0x5a, a: 0xff },
            background: Rgba { r: 0x1e, g: 0x1e, b: 0x2e, a: 0xff },
            radius: 12,
            border: 2,
            gap: 10,
            margin: 14,
            wallpaper: None,
            blur: true,
        }
    }
}

/// `cur`, or the color `c` names when it is a valid color.
pub open spec fn color_or(c: Option<String>, cur: Rgba) -> Rgba {
    match c {
        Some(s) => match hex_color_spec(s@) {
            Some(x) => x,
            None => cur,
        },
        None => cur,
    }
}

pub open spec fn color_safe(c: Option<String>) -> bool {
    c matches Some(s) ==> !hex_color_panics(s@)
}

/// No color of the block makes the color parser panic.
pub open spec fn theme_block_safe(t: ThemeBlock) -> bool {
    color_safe(t.accent) && color_safe(t.inactive) && color_safe(t.background)
}

/// `theme` with the entries that `t` sets applied (invalid colors are
/// ignored; numbers are taken as they are, `i64` to `i32` by truncation).
pub open spec fn themed(theme: Theme, t: ThemeBlock) -> Theme {
    Theme {
        accent: color_or(t.accent, theme.accent),
        inactive: color_or(t.inactive, theme.inactive),
        background: color_or(t.background, theme.background),
        radius: match t.radius {
            Some(v) => v,
            None => theme.radius,
        },
        border: match t.border {
            Some(v) => v as i32,
            None => theme.border,
        },
        gap: match t.gap {
            Some(v) => v as i32,
            None => theme.gap,
        },
        margin: match t.margin {
            Some(v) => v as i32,
            None => theme.margin,
        },
        wallpaper: if t.wallpaper is Some {
            t.wallpaper
        } else {
            theme.wallpaper
        },
        blur: match t.blur {
            Some(v) => v,
            None => theme.blur,
        },
    }
}

fn color_entry(c: &Option<String>, cur: Rgba) -> (r: Rgba)
    requires
        color_safe(*c),
    ensures
        r == color_or(*c, cur),
{
    match c {
        Some(s) => match hex_color(s.as_str()) {
            Some(x) => x,
            None => cur,
        },
        None => cur,
    }
}

/// Apply a `theme { .. }` block over `theme`.
pub fn apply_theme(theme: Theme, t: ThemeBlock) -> (r: Theme)
    requires
        theme_block_safe(t),
    ensures
        r == themed(theme, t),
{
    let mut theme = theme;
    theme.accent = color_entry(&t.accent, theme.accent);
    theme.inactive = color_entry(&t.inactive, theme.inactive);
    theme.background = color_entry(&t.background, theme.background);
    if let Some(v) = t.radius {
        theme.radius = v;
    }
    if let Some(v) = t.border {
        theme.border = v as i32;
    }
    if let Some(v) = t.gap {
        theme.gap = v as i32;
    }
    if let Some(v) = t.margin {
        theme.margin = v as i32;
    }
    if t.wallpaper.is_some() {
        theme.wallpaper = t.wallpaper;
    }
    if let Some(v) = t.blur {
        theme.blur = v;
    }
    theme
}

// ── the runtime config ───────────────────────────────────────────────────────
/// Binds (unique chords, in config order, user overrides applied) and the
/// theme.
pub struct Config {
    pub binds: Vec<Bind>,
    pub theme: Theme,
}

pub open spec fn doc_entries(d: Document) -> Seq<BindEntry> {
    match d.binds {
        Some(b) => b.entries@,
        None => Seq::empty(),
    }
}

/// Bind lines of the built-in defaults, then those of the user file.
pub open spec fn all_entries(default_doc: Document, user_doc: Option<Document>) -> Seq<BindEntry> {
    doc_entries(default_doc) + match user_doc {
        Some(d) => doc_entries(d),
        None => Seq::empty(),
    }
}

/// The theme: defaults, the user file's theme block over them, then the
/// wallpaper chosen at runtime over everything.
pub open spec fn theme_spec(user_doc: Option<Document>, wallpaper_override: Option<String>) -> Theme {
    let t = match user_doc {
        Some(d) => match d.theme {
            Some(tb) => themed(Theme::default_spec(), tb),
            None => Theme::default_spec(),
        },
        None => Theme::default_spec(),
    };
    match wallpaper_override {
        Some(p) => Theme { wallpaper: Some(p), ..t },
        None => t,
    }
}

pub open spec fn user_theme_safe(user_doc: Option<Document>) -> bool {
    user_doc matches Some(d) ==> (d.theme matches Some(tb) ==> theme_block_safe(tb))
}

fn take_entries(d: Document) -> (r: (Vec<BindEntry>, Option<ThemeBlock>))
    ensures
        r.0@ == doc_entries(d),
        r.1 == d.theme,
{
    let Document { binds, theme } = d;
    match binds {
        Some(b) => (b.entries, theme),
        None => (Vec::new(), theme),
    }
}

/// `k` is the keysym a bind line got: what `lookup` answered for the line's
/// key name, or 0 when there was nothing to look up.
pub open spec fn answered<F: Fn(String) -> u32>(lookup: F, e: BindEntry, k: u32) -> bool {
    match key_lookup(e) {
        Some(n) => exists|s: String| s@ == n && #[trigger] call_ensures(lookup, (s,), k),
        None => k == 0,
    }
}

/// The config built from the two documents, bind line `i` having keysym
/// `ks[i]`: it fails exactly when some line does not compile, with the error
/// of the first such line; otherwise its binds are the compiled lines merged
/// (a later bind on a chord replaces the earlier one in place), and its
/// theme is `theme_spec`.
pub open spec fn built(
    default_doc: Document,
    user_doc: Option<Document>,
    wallpaper_override: Option<String>,
    ks: Seq<u32>,
    r: Result<Config, ConfigError>,
) -> bool {
    let all = all_entries(default_doc, user_doc);
    &&& r is Ok <==> entries_ok_before(all, ks, all.len() as int)
    &&& r matches Err(err) ==> exists|i: int|
        0 <= i < all.len() && entries_ok_before(all, ks, i) && !entry_ok(#[trigger] all[i], ks[i])
            && entry_error(all[i], ks[i], err)
    &&& r matches Ok(cfg) ==> {
        &&& exists|ps: Seq<Bind>|
            {
                &&& ps.len() == all.len()
                &&& forall|i: int| 0 <= i < ps.len() ==> bind_from(#[trigger] all[i], ks[i], ps[i])
                &&& cfg.binds@ == merged(ps)
            }
        &&& unique_chords(cfg.binds@)
        &&& cfg.theme == theme_spec(user_doc, wallpaper_override)
    }
}

impl Config {
    /// The key names `from_documents` looks up, one per bind line, default
    /// lines first.
    pub fn bind_key_lookups(default_doc: &Document, user_doc: &Option<Document>) -> (r: Vec<
        Option<String>,
    >)
        ensures
            r@.len() == all_entries(*default_doc, *user_doc).len(),
            forall|i: int|
                0 <= i < r@.len() ==> lookup_view(#[trigger] r@[i]) == key_lookup(
                    all_entries(*default_doc, *user_doc)[i],
                ),
    {
        let mut out: Vec<Option<String>> = Vec::new();
        if let Some(b) = &default_doc.binds {
            push_lookups(&b.entries, &mut out);
        }
        if let Some(d) = user_doc {
            if let Some(b) = &d.binds {
                push_lookups(&b.entries, &mut out);
            }
        }
        proof {
            let all = all_entries(*default_doc, *user_doc);
            let n0 = doc_entries(*default_doc).len();
            assert forall|i: int| 0 <= i < out@.len() implies lookup_view(#[trigger] out@[i])
                == key_lookup(all[i]) by {
                if i < n0 {
                    assert(all[i] == doc_entries(*default_doc)[i]);
                } else {
                    assert(all[i] == doc_entries(user_doc->0)[i - n0]);
                }
            }
        }
        out
    }

    /// Build the runtime config: every bind line's key name is looked up
    /// with `lookup` (xkb's case-insensitive `keysym_from_name` in the
    /// compositor), which is never asked about a name holding a NUL; a line
    /// with nothing to look up gets 0 (see `key_lookup`);
    /// the default binds load first and the user's overlay them (a user
    /// bind on an already-bound chord replaces the default action in place);
    /// the user theme block overlays the default theme, and a runtime
    /// wallpaper choice overrides both.
    pub fn from_documents<F: Fn(String) -> u32>(
        default_doc: Document,
        user_doc: Option<Document>,
        wallpaper_override: Option<String>,
        lookup: F,
    ) -> (r: Result<Config, ConfigError>)
        requires
            user_theme_safe(user_doc),
            forall|s: String| !s@.contains('\0') ==> call_requires(lookup, (s,)),
        ensures
            exists|ks: Seq<u32>|
                {
                    &&& ks.len() == all_entries(default_doc, user_doc).len()
                    &&& forall|i: int|
                        0 <= i < ks.len() ==> answered(
                            lookup,
                            all_entries(default_doc, user_doc)[i],
                            #[trigger] ks[i],
                        )
                    &&& built(default_doc, user_doc, wallpaper_override, ks, r)
                },
    {
        let names = Config::bind_key_lookups(&default_doc, &user_doc);
        let ghost all = all_entries(default_doc, user_doc);
        let mut keysyms: Vec<u32> = Vec::new();
        let mut i: usize = 0;
        while i < names.len()
            invariant
                i <= names@.len(),
                names@.len() == all.len(),
                keysyms@.len() == i,
                forall|s: String| !s@.contains('\0') ==> call_requires(lookup, (s,)),
                forall|j: int|
                    0 <= j < names@.len() ==> lookup_view(#[trigger] names@[j]) == key_lookup(all[j]),
                forall|j: int| 0 <= j < i ==> answered(lookup, all[j], #[trigger] keysyms@[j]),
            decreases names.len() - i,
        {
            let k = match &names[i] {
                Some(n) => {
                    let n2 = n.clone();
                    let k = lookup(n2);
                    proof {
                        assert(lookup_view(names@[i as int]) == key_lookup(all[i as int]));
                        assert(call_ensures(lookup, (n2,), k));
                    }
                    k
                },
                None => 0,
            };
            keysyms.push(k);
            proof {
                assert(keysyms@[i as int] == k);
            }
            i += 1;
        }
        let r = Config::from_keysyms(default_doc, user_doc, wallpaper_override, &keysyms);
        proof {
            assert(forall|j: int|
                0 <= j < keysyms@.len() ==> answered(lookup, all[j], #[trigger] keysyms@[j]));
        }
        r
    }

    /// `from_documents` once the keysyms are known: `keysyms[i]` is the one
    /// for bind line `i`, default lines first.
    fn from_keysyms(
        default_doc: Document,
        user_doc: Option<Document>,
        wallpaper_override: Option<String>,
        keysyms: &Vec<u32>,
    ) -> (r: Result<Config, ConfigError>)
        requires
            keysyms@.len() == all_entries(default_doc, user_doc).len(),
            user_theme_safe(user_doc),
        ensures
            built(default_doc, user_doc, wallpaper_override, keysyms@, r),
    {
        let ghost all = all_entries(default_doc, user_doc);
        let (mut entries, _) = take_entries(default_doc);
        let mut user_theme: Option<ThemeBlock> = None;
        match user_doc {
            Some(d) => {
                let (mut more, t) = take_entries(d);
                entries.append(&mut more);
                user_theme = t;
            },
            None => {
                proof {
                    assert(entries@ + Seq::<BindEntry>::empty() =~= entries@);
                }
            },
        }
        proof {
            assert(entries@ == all);
        }
        let parsed = match parse_binds(entries, keysyms) {
            Ok(ps) => ps,
            Err(e) => {
                return Err(e);
            },
        };
        let ghost ps = parsed@;
        let binds = merge_binds(parsed);
        let mut theme = Theme::default();
        if let Some(t) = user_theme {
            theme = apply_theme(theme, t);
        }
        if let Some(p) = wallpaper_override {
            theme.wallpaper = Some(p);
        }
        let cfg = Config { binds, theme };
        proof {
            assert(cfg.binds@ == merged(ps));
        }
        Ok(cfg)
    }

    /// The action bound to `chord`, if any.
    pub fn action_for(&self, chord: Chord) -> (r: Option<&Action>)
        requires
            unique_chords(self.binds@),
        ensures
            r is Some <==> has_chord(self.binds@, chord),
            r matches Some(a) ==> *a == self.binds@[chord_pos(self.binds@, chord)].action,
    {
        let mut i: usize = 0;
        while i < self.binds.len()
            invariant
                i <= self.binds@.len(),
                unique_chords(self.binds@),
                forall|j: int| 0 <= j < i ==> (#[trigger] self.binds@[j]).chord != chord,
            decreases self.binds.len() - i,
        {
            if self.binds[i].chord == chord {
                proof {
                    lemma_chord_pos(self.binds@, i as int);
                }
                return Some(&self.binds[i].action);
            }
            i += 1;
        }
        None
    }
}

/// A user file that only sets a theme keeps every default bind: the bind
/// lines compiled are exactly the defaults.
pub proof fn law_theme_only_keeps_defaults(default_doc: Document, user: Document)
    requires
        user.binds is None,
    ensures
        all_entries(default_doc, Some(user)) == doc_entries(default_doc),
{
    assert(doc_entries(default_doc) + Seq::<BindEntry>::empty() =~= doc_entries(default_doc));
}

} // verus!
