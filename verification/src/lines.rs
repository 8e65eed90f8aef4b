//! Lines and words of a text.

use vstd::prelude::*;
use vstd::string::*;

verus! {

/// The characters of a text.
pub fn chars_of(s: &str) -> (r: Vec<char>)
    ensures
        r@ == s@,
{
    let mut out: Vec<char> = Vec::new();
    for c in it: s.chars()
        invariant
            it.seq() == s@,
            out@ == s@.take(it.index() as int),
    {
        let ghost i = it.index();
        out.push(c);
        assert(out@ =~= s@.take(i + 1));
    }
    assert(s@.take(s@.len() as int) =~= s@);
    out
}

/// A blank, as Unicode has it.
pub open spec fn white(c: char) -> bool {
    let v = c as u32;
    ||| 0x09 <= v <= 0x0d
    ||| v == 0x20
    ||| v == 0x85
    ||| v == 0xa0
    ||| v == 0x1680
    ||| 0x2000 <= v <= 0x200a
    ||| v == 0x2028
    ||| v == 0x2029
    ||| v == 0x202f
    ||| v == 0x205f
    ||| v == 0x3000
}

pub fn is_white(c: char) -> (r: bool)
    ensures
        r == white(c),
{
    let v: u32 = c as u32;
    (0x09 <= v && v <= 0x0d) || v == 0x20 || v == 0x85 || v == 0xa0 || v == 0x1680 || (0x2000 <= v
        && v <= 0x200a) || v == 0x2028 || v == 0x2029 || v == 0x202f || v == 0x205f || v == 0x3000
}

/// Where the line at `i` ends: at a line feed, or at the end.
pub open spec fn line_end(c: Seq<char>, i: int) -> int
    decreases c.len() - i,
{
    if 0 <= i < c.len() && c[i] != '\n' {
        line_end(c, i + 1)
    } else {
        i
    }
}

/// The lines from `i` on, as where each starts and ends. A line feed ends a
/// line, a carriage return before it belongs to the end.
pub open spec fn lines_from(c: Seq<char>, i: int) -> Seq<(int, int)>
    decreases c.len() - i,
{
    if i < 0 || i >= c.len() {
        Seq::empty()
    } else {
        let e = line_end(c, i);
        let shown = if i < e < c.len() && c[e - 1] == '\r' {
            e - 1
        } else {
            e
        };
        if i <= e < c.len() {
            seq![(i, shown)] + lines_from(c, e + 1)
        } else {
            seq![(i, shown)]
        }
    }
}

pub proof fn lemma_line_end(c: Seq<char>, i: int)
    requires
        0 <= i <= c.len(),
    ensures
        i <= line_end(c, i) <= c.len(),
    decreases c.len() - i,
{
    if i < c.len() && c[i] != '\n' {
        lemma_line_end(c, i + 1);
    }
}

/// Numbers of characters, as mathematical ones.
pub open spec fn spans(v: Seq<(usize, usize)>) -> Seq<(int, int)> {
    v.map_values(|p: (usize, usize)| (p.0 as int, p.1 as int))
}

/// The lines of a text.
pub fn line_spans(c: &[char]) -> (r: Vec<(usize, usize)>)
    ensures
        spans(r@) == lines_from(c@, 0),
        forall|k: int|
            0 <= k < r@.len() ==> (#[trigger] r@[k]).0 <= r@[k].1 && r@[k].1 <= c@.len(),
{
    let mut out: Vec<(usize, usize)> = Vec::new();
    let mut i: usize = 0;
    assert(spans(out@) + lines_from(c@, 0) =~= lines_from(c@, 0));
    while i < c.len()
        invariant
            i <= c@.len(),
            spans(out@) + lines_from(c@, i as int) == lines_from(c@, 0),
            forall|k: int|
                0 <= k < out@.len() ==> (#[trigger] out@[k]).0 <= out@[k].1 && out@[k].1
                    <= c@.len(),
        decreases c@.len() - i,
    {
        let mut e: usize = i;
        while e < c.len() && c[e] != '\n'
            invariant
                i <= e <= c@.len(),
                line_end(c@, i as int) == line_end(c@, e as int),
            decreases c@.len() - e,
        {
            e += 1;
        }
        let shown: usize = if i < e && e < c.len() && c[e - 1] == '\r' {
            e - 1
        } else {
            e
        };
        let ghost before = out@;
        let ghost left = lines_from(c@, i as int);
        out.push((i, shown));
        assert(spans(out@) =~= spans(before).push((i as int, shown as int)));
        if e < c.len() {
            assert(spans(before) + left =~= spans(out@) + lines_from(c@, e + 1));
            i = e + 1;
        } else {
            assert(lines_from(c@, e as int) =~= Seq::<(int, int)>::empty());
            assert(spans(before) + left =~= spans(out@) + lines_from(c@, e as int));
            i = e;
        }
    }
    assert(spans(out@) + lines_from(c@, i as int) =~= spans(out@));
    out
}

/// Where the blanks from `lo` on end, before `hi`.
pub open spec fn trim_start(c: Seq<char>, lo: int, hi: int) -> int
    decreases hi - lo,
{
    if lo < hi && white(c[lo]) {
        trim_start(c, lo + 1, hi)
    } else {
        lo
    }
}

/// Where the blanks before `hi` start, after `lo`.
pub open spec fn trim_end(c: Seq<char>, lo: int, hi: int) -> int
    decreases hi - lo,
{
    if lo < hi && white(c[hi - 1]) {
        trim_end(c, lo, hi - 1)
    } else {
        hi
    }
}

pub fn skip_blanks(c: &[char], lo: usize, hi: usize) -> (r: usize)
    requires
        lo <= hi <= c@.len(),
    ensures
        r == trim_start(c@, lo as int, hi as int),
        lo <= r <= hi,
{
    let mut i: usize = lo;
    while i < hi && is_white(c[i])
        invariant
            lo <= i <= hi <= c@.len(),
            trim_start(c@, lo as int, hi as int) == trim_start(c@, i as int, hi as int),
        decreases hi - i,
    {
        i += 1;
    }
    i
}

pub fn drop_blanks(c: &[char], lo: usize, hi: usize) -> (r: usize)
    requires
        lo <= hi <= c@.len(),
    ensures
        r == trim_end(c@, lo as int, hi as int),
        lo <= r <= hi,
{
    let mut i: usize = hi;
    while i > lo && is_white(c[i - 1])
        invariant
            lo <= i <= hi <= c@.len(),
            trim_end(c@, lo as int, hi as int) == trim_end(c@, lo as int, i as int),
        decreases i - lo,
    {
        i -= 1;
    }
    i
}

} // verus!
