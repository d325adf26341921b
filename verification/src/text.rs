//! Character-level helpers for the parsers: strings are handled through
//! their `char` sequences.
use vstd::prelude::*;

verus! {

/// The characters of `s`.
pub fn chars_of(s: &str) -> (r: Vec<char>)
    ensures
        r@ == s@,
{
    let mut out: Vec<char> = Vec::new();
    for c in it: s.chars()
        invariant
            out@ == it.seq().take(it.index() as int),
    {
        out.push(c);
        proof {
            assert(it.seq().take(it.index() + 1) =~= it.seq().take(it.index() as int).push(c));
        }
    }
    proof {
        assert(out@ =~= s@);
    }
    out
}

/// Whether two strings hold the same characters.
pub fn str_eq(a: &str, b: &str) -> (r: bool)
    ensures
        r == (a@ == b@),
{
    let x = chars_of(a);
    let y = chars_of(b);
    if x.len() != y.len() {
        return false;
    }
    let mut i: usize = 0;
    while i < x.len()
        invariant
            i <= x.len() == y.len(),
            x@ == a@,
            y@ == b@,
            forall|j: int| 0 <= j < i ==> x@[j] == y@[j],
        decreases x.len() - i,
    {
        if x[i] != y[i] {
            return false;
        }
        i += 1;
    }
    proof {
        assert(x@ =~= y@);
    }
    true
}

/// Whether `c` occurs in `s`.
pub fn has_char(s: &str, c: char) -> (r: bool)
    ensures
        r == s@.contains(c),
{
    let v = chars_of(s);
    let mut i: usize = 0;
    while i < v.len()
        invariant
            i <= v@.len(),
            v@ == s@,
            forall|j: int| 0 <= j < i ==> v@[j] != c,
        decreases v.len() - i,
    {
        if v[i] == c {
            return true;
        }
        i += 1;
    }
    false
}

/// `String::push`: appends one character.
#[verifier::external_body]
pub(crate) fn push_char(s: &mut String, c: char)
    ensures
        final(s)@ == old(s)@.push(c),
{
    s.push(c);
}

/// A string holding `v[lo..hi]`.
pub fn string_from(v: &Vec<char>, lo: usize, hi: usize) -> (r: String)
    requires
        lo <= hi <= v.len(),
    ensures
        r@ == v@.subrange(lo as int, hi as int),
{
    let mut out = String::new();
    let mut i = lo;
    while i < hi
        invariant
            lo <= i <= hi <= v.len(),
            out@ == v@.subrange(lo as int, i as int),
        decreases hi - i,
    {
        push_char(&mut out, v[i]);
        proof {
            assert(v@.subrange(lo as int, i + 1) =~= v@.subrange(lo as int, i as int).push(
                v@[i as int],
            ));
        }
        i += 1;
    }
    out
}

/// Unicode `White_Space`, the property `char::is_whitespace` and `str::trim`
/// go by.
pub open spec fn is_ws(c: char) -> bool {
    let u = c as u32;
    (0x09 <= u && u <= 0x0d) || u == 0x20 || u == 0x85 || u == 0xa0 || u == 0x1680 || (0x2000 <= u
        && u <= 0x200a) || u == 0x2028 || u == 0x2029 || u == 0x202f || u == 0x205f || u == 0x3000
}

pub fn is_whitespace(c: char) -> (r: bool)
    ensures
        r == is_ws(c),
{
    let u = c as u32;
    (0x09 <= u && u <= 0x0d) || u == 0x20 || u == 0x85 || u == 0xa0 || u == 0x1680 || (0x2000 <= u
        && u <= 0x200a) || u == 0x2028 || u == 0x2029 || u == 0x202f || u == 0x205f || u == 0x3000
}

/// `s[lo..hi]` is `s` with its leading and trailing whitespace cut off.
pub open spec fn trim_bounds(s: Seq<char>, lo: int, hi: int) -> bool {
    &&& 0 <= lo <= hi <= s.len()
    &&& forall|j: int| 0 <= j < lo ==> is_ws(#[trigger] s[j])
    &&& forall|j: int| hi <= j < s.len() ==> is_ws(#[trigger] s[j])
    &&& lo < hi ==> !is_ws(s[lo]) && !is_ws(s[hi - 1])
}

/// `s` without leading and trailing whitespace (`str::trim`).
pub open spec fn trim_spec(s: Seq<char>) -> Seq<char> {
    let (lo, hi) = choose|lo: int, hi: int| trim_bounds(s, lo, hi);
    s.subrange(lo, hi)
}

/// Any trim bounds give the trimmed string.
pub proof fn lemma_trim(s: Seq<char>, lo: int, hi: int)
    requires
        trim_bounds(s, lo, hi),
    ensures
        trim_spec(s) == s.subrange(lo, hi),
{
    let (a, b) = choose|a: int, b: int| trim_bounds(s, a, b);
    assert(trim_bounds(s, a, b));
    if lo < hi {
        if a == b {
            assert(is_ws(s[lo]));
        }
        if a < lo {
            assert(is_ws(s[a]));
        }
        if lo < a {
            assert(is_ws(s[lo]));
        }
        if b < hi {
            assert(is_ws(s[hi - 1]));
        }
        if hi < b {
            assert(is_ws(s[b - 1]));
        }
        assert(a == lo && b == hi);
    } else {
        if a < b {
            assert(is_ws(s[a]));
        }
        assert(s.subrange(a, b) =~= s.subrange(lo, hi));
    }
}

/// Trim bounds of `v[from..to]`, relative to `v`.
pub fn trim_range(v: &Vec<char>, from: usize, to: usize) -> (r: (usize, usize))
    requires
        from <= to <= v.len(),
    ensures
        from <= r.0 <= r.1 <= to,
        trim_spec(v@.subrange(from as int, to as int)) == v@.subrange(r.0 as int, r.1 as int),
{
    let mut lo = from;
    while lo < to && is_whitespace(v[lo])
        invariant
            from <= lo <= to <= v.len(),
            forall|j: int| from <= j < lo ==> is_ws(#[trigger] v@[j]),
        decreases to - lo,
    {
        lo += 1;
    }
    let mut hi = to;
    while hi > lo && is_whitespace(v[hi - 1])
        invariant
            from <= lo <= hi <= to <= v.len(),
            forall|j: int| hi <= j < to ==> is_ws(#[trigger] v@[j]),
        decreases hi - lo,
    {
        hi -= 1;
    }
    proof {
        let s = v@.subrange(from as int, to as int);
        assert forall|j: int| 0 <= j < lo - from implies is_ws(#[trigger] s[j]) by {
            assert(s[j] == v@[from + j]);
        }
        assert forall|j: int| hi - from <= j < s.len() implies is_ws(#[trigger] s[j]) by {
            assert(s[j] == v@[from + j]);
        }
        if lo < hi {
            assert(s[lo - from] == v@[lo as int]);
            assert(s[hi - 1 - from] == v@[hi - 1]);
        }
        assert(trim_bounds(s, lo - from, hi - from));
        lemma_trim(s, lo - from, hi - from);
        assert(s.subrange(lo - from, hi - from) =~= v@.subrange(lo as int, hi as int));
    }
    (lo, hi)
}

/// ASCII letters folded to lower case (`str::to_ascii_lowercase`).
pub open spec fn ascii_lower(s: Seq<char>) -> Seq<char> {
    s.map_values(|c: char| lower_char(c))
}

pub open spec fn lower_char(c: char) -> char {
    if 'A' <= c && c <= 'Z' {
        ((c as u32) + 32) as char
    } else {
        c
    }
}

/// `v[lo..hi]` folded to ASCII lower case.
pub fn lower_range(v: &Vec<char>, lo: usize, hi: usize) -> (r: Vec<char>)
    requires
        lo <= hi <= v.len(),
    ensures
        r@ == ascii_lower(v@.subrange(lo as int, hi as int)),
{
    let mut out: Vec<char> = Vec::new();
    let mut i = lo;
    while i < hi
        invariant
            lo <= i <= hi <= v.len(),
            out@ == ascii_lower(v@.subrange(lo as int, i as int)),
        decreases hi - i,
    {
        let c = v[i];
        let u = c as u32;
        let d = if 0x41 <= u && u <= 0x5a {
            ((u as u8) + 32) as char
        } else {
            c
        };
        proof {
            assert(d == lower_char(c));
        }
        out.push(d);
        proof {
            assert(ascii_lower(v@.subrange(lo as int, i + 1)) =~= ascii_lower(
                v@.subrange(lo as int, i as int),
            ).push(lower_char(c)));
        }
        i += 1;
    }
    out
}

/// Whether `v[lo..hi]` spells `lit`.
pub fn range_is(v: &Vec<char>, lo: usize, hi: usize, lit: &str) -> (r: bool)
    requires
        lo <= hi <= v.len(),
    ensures
        r == (v@.subrange(lo as int, hi as int) == lit@),
{
    let l = chars_of(lit);
    if l.len() != hi - lo {
        return false;
    }
    let mut i: usize = 0;
    while i < l.len()
        invariant
            lo <= hi <= v.len(),
            l.len() == hi - lo,
            l@ == lit@,
            i <= l.len(),
            forall|j: int| 0 <= j < i ==> v@[lo + j] == l@[j],
        decreases l.len() - i,
    {
        if v[lo + i] != l[i] {
            proof {
                assert(v@.subrange(lo as int, hi as int)[i as int] != lit@[i as int]);
            }
            return false;
        }
        i += 1;
    }
    proof {
        assert(v@.subrange(lo as int, hi as int) =~= lit@);
    }
    true
}

/// Whether the characters of `v` spell `lit`.
pub fn chars_are(v: &Vec<char>, lit: &str) -> (r: bool)
    ensures
        r == (v@ == lit@),
{
    let r = range_is(v, 0, v.len(), lit);
    proof {
        assert(v@.subrange(0, v@.len() as int) =~= v@);
    }
    r
}

/// A rasterized line of text: premultiplied ARGB8888 (little-endian BGRA
/// bytes), `w` by `h` pixels.
pub struct Raster {
    pub data: Vec<u8>,
    pub w: i32,
    pub h: i32,
}

impl Raster {
    /// Four bytes per pixel, row by row.
    pub open spec fn wf(self) -> bool {
        &&& self.w > 0
        &&& self.h > 0
        &&& self.data@.len() == 4 * self.w * self.h
    }

    /// The color bytes of pixel (`x`, `y`).
    pub fn pixel(&self, x: i32, y: i32) -> (r: [u8; 4])
        requires
            self.wf(),
            0 <= x < self.w,
            0 <= y < self.h,
        ensures
            r@ == self.data@.subrange(4 * (y * self.w + x), 4 * (y * self.w + x) + 4),
    {
        proof {
            assert(self.data@.len() == self.data.len());
            assert(0 <= y * self.w && y * self.w + x < self.w * self.h && 4 * (y * self.w + x) + 4 <= 4
                * self.w * self.h) by (nonlinear_arith)
                requires
                    0 <= x < self.w,
                    0 <= y < self.h,
            ;
        }
        let yy = y as usize;
        let ww = self.w as usize;
        let xx = x as usize;
        assert(yy * ww == y * self.w);
        let i = 4 * (yy * ww + xx);
        let r = [self.data[i], self.data[i + 1], self.data[i + 2], self.data[i + 3]];
        proof {
            assert(r@ =~= self.data@.subrange(i as int, i + 4));
        }
        r
    }
}

} // verus!
