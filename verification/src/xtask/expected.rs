//! What a start of the system must show: a list of lines, which must come in
//! this order; those marked with `~` may come at any time after the line before.

use vstd::prelude::*;
use vstd::string::*;
use crate::lines::{chars_of, drop_blanks, line_spans, lines_from, skip_blanks, spans, trim_end, trim_start};

verus! {

/// One line that must be shown.
pub struct ExpectedLine {
    pub text: String,
    /// Other lines may come before or after it.
    pub unordered: bool,
}

/// The contents of an [`ExpectedLine`].
pub struct ExpectedView {
    pub text: Seq<char>,
    pub unordered: bool,
}

/// The contents of each line.
pub open spec fn expected_views(v: Seq<ExpectedLine>) -> Seq<ExpectedView> {
    v.map_values(|e: ExpectedLine| ExpectedView { text: e.text@, unordered: e.unordered })
}

/// What the line from `lo` to `hi` asks for: nothing if it is blank or a
/// comment.
pub open spec fn expected_at(c: Seq<char>, lo: int, hi: int) -> Option<ExpectedView> {
    let a = trim_start(c, lo, hi);
    let b = trim_end(c, a, hi);
    if a >= b || c[a] == '#' {
        None
    } else if c[a] == '~' {
        Some(ExpectedView { text: c.subrange(trim_start(c, a + 1, b), b), unordered: true })
    } else {
        Some(ExpectedView { text: c.subrange(a, b), unordered: false })
    }
}

/// What the first `n` lines ask for.
pub open spec fn expected_lines(c: Seq<char>, lines: Seq<(int, int)>, n: nat) -> Seq<ExpectedView>
    decreases n,
{
    if n == 0 {
        Seq::empty()
    } else {
        let before = expected_lines(c, lines, (n - 1) as nat);
        match expected_at(c, lines[n - 1].0, lines[n - 1].1) {
            Some(e) => before.push(e),
            None => before,
        }
    }
}

/// Read the list.
pub fn parse_expected(spec_text: &str) -> (r: Vec<ExpectedLine>)
    ensures
        expected_views(r@) == expected_lines(
            spec_text@,
            lines_from(spec_text@, 0),
            lines_from(spec_text@, 0).len(),
        ),
{
    let chars = chars_of(spec_text);
    let c = chars.as_slice();
    let lines = line_spans(c);
    let ghost all = lines_from(c@, 0);
    let mut out: Vec<ExpectedLine> = Vec::new();
    let mut i: usize = 0;
    assert(expected_views(out@) =~= Seq::<ExpectedView>::empty());
    assert(spans(lines@).len() == lines@.len());
    while i < lines.len()
        invariant
            i <= lines@.len(),
            c@ == spec_text@,
            spans(lines@) == all,
            all.len() == lines@.len(),
            forall|k: int|
                0 <= k < lines@.len() ==> (#[trigger] lines@[k]).0 <= lines@[k].1 && lines@[k].1
                    <= c@.len(),
            expected_views(out@) == expected_lines(c@, all, i as nat),
        decreases lines@.len() - i,
    {
        let (lo, hi): (usize, usize) = lines[i];
        assert(spans(lines@)[i as int] == (lo as int, hi as int));
        let a: usize = skip_blanks(c, lo, hi);
        let b: usize = drop_blanks(c, a, hi);
        let ghost before = out@;
        if a < b && c[a] != '#' {
            if c[a] == '~' {
                let t: usize = skip_blanks(c, a + 1, b);
                let text = spec_text.substring_char(t, b).to_owned();
                out.push(ExpectedLine { text, unordered: true });
            } else {
                let text = spec_text.substring_char(a, b).to_owned();
                out.push(ExpectedLine { text, unordered: false });
            }
            assert(expected_views(out@) =~= expected_views(before).push(
                expected_at(c@, lo as int, hi as int)->Some_0,
            ));
        }
        i += 1;
    }
    out
}

/// `text` stands at `i` in `log`.
pub open spec fn occurs(log: Seq<u8>, text: Seq<u8>, i: int) -> bool {
    0 <= i && i + text.len() <= log.len() && log.subrange(i, i + text.len()) == text
}

/// The first place from `from` on where `text` stands.
pub open spec fn first_at(log: Seq<u8>, text: Seq<u8>, from: int) -> Option<int>
    decreases log.len() - from + 1,
{
    if from < 0 || from + text.len() > log.len() {
        None
    } else if occurs(log, text, from) {
        Some(from)
    } else {
        first_at(log, text, from + 1)
    }
}

/// Whether `text` stands at `i` in `log`.
fn stands_at(log: &[u8], text: &[u8], i: usize) -> (r: bool)
    requires
        i + text@.len() <= log@.len(),
    ensures
        r == occurs(log@, text@, i as int),
{
    assert(log@.len() == log.len());
    let mut k: usize = 0;
    while k < text.len()
        invariant
            k <= text@.len(),
            i + text@.len() <= log@.len() <= usize::MAX,
            forall|j: int| 0 <= j < k ==> #[trigger] log@[i + j] == text@[j],
        decreases text@.len() - k,
    {
        if log[i + k] != text[k] {
            assert(log@.subrange(i as int, i + text@.len())[k as int] != text@[k as int]);
            return false;
        }
        k += 1;
    }
    proof {
        let there = log@.subrange(i as int, i + text@.len());
        assert forall|j: int| 0 <= j < text@.len() implies #[trigger] there[j] == text@[j] by {
            assert(log@[i + j] == text@[j]);
        }
        assert(there =~= text@);
    }
    true
}

/// The first place from `from` on where `text` stands.
pub fn find_from(log: &[u8], text: &[u8], from: usize) -> (r: Option<usize>)
    requires
        from <= log@.len(),
    ensures
        match (r, first_at(log@, text@, from as int)) {
            (Some(i), Some(j)) => i == j && from <= i && i + text@.len() <= log@.len(),
            (None, None) => true,
            _ => false,
        },
{
    assert(log@.len() == log.len() && text@.len() == text.len());
    let mut i: usize = from;
    while text.len() <= log.len() - i
        invariant
            from <= i <= log@.len() <= usize::MAX,
            first_at(log@, text@, from as int) == first_at(log@, text@, i as int),
        decreases log@.len() - i,
    {
        if stands_at(log, text, i) {
            return Some(i);
        }
        assert(text@.len() > 0) by {
            if text@.len() == 0 {
                assert(log@.subrange(i as int, i as int) =~= text@);
            }
        }
        i += 1;
    }
    None
}

/// Where each of the first `n` expected lines is found in `log`, and from where
/// the next one is looked for: behind the last one that was found in order.
pub open spec fn matched(log: Seq<u8>, expected: Seq<ExpectedLine>, n: nat) -> (
    int,
    Seq<Option<int>>,
)
    decreases n,
{
    if n == 0 {
        (0, Seq::empty())
    } else {
        let (cursor, found) = matched(log, expected, (n - 1) as nat);
        let e = expected[n - 1];
        let text = vstd::utf8::encode_utf8(e.text@);
        match first_at(log, text, cursor) {
            Some(pos) => (
                if e.unordered {
                    cursor
                } else {
                    pos + text.len()
                },
                found.push(Some(pos)),
            ),
            None => (cursor, found.push(None)),
        }
    }
}

/// Numbers of bytes, as mathematical ones.
pub open spec fn positions(v: Seq<Option<usize>>) -> Seq<Option<int>> {
    v.map_values(
        |p: Option<usize>|
            match p {
                Some(i) => Some(i as int),
                None => None,
            },
    )
}

/// Where each expected line is found in `log`.
pub fn match_expected(log: &str, expected: &[ExpectedLine]) -> (r: Vec<Option<usize>>)
    ensures
        positions(r@) == matched(log.spec_bytes(), expected@, expected@.len()).1,
{
    let bytes = log.as_bytes();
    let mut cursor: usize = 0;
    let mut out: Vec<Option<usize>> = Vec::new();
    let mut i: usize = 0;
    assert(positions(out@) =~= Seq::<Option<int>>::empty());
    while i < expected.len()
        invariant
            i <= expected@.len(),
            bytes@ == log.spec_bytes(),
            cursor <= bytes@.len(),
            (cursor as int, positions(out@)) == matched(bytes@, expected@, i as nat),
        decreases expected@.len() - i,
    {
        let text = expected[i].text.as_str().as_bytes();
        let ghost before = out@;
        match find_from(bytes, text, cursor) {
            Some(pos) => {
                if !expected[i].unordered {
                    assert(bytes@.len() == bytes.len());
                    cursor = pos + text.len();
                }
                out.push(Some(pos));
                assert(positions(out@) =~= positions(before).push(Some(pos as int)));
            },
            None => {
                out.push(None);
                assert(positions(out@) =~= positions(before).push(None));
            },
        }
        i += 1;
    }
    out
}

proof fn lemma_first_at(log: Seq<u8>, text: Seq<u8>, from: int)
    requires
        0 <= from,
    ensures
        match first_at(log, text, from) {
            Some(pos) => {
                &&& from <= pos
                &&& occurs(log, text, pos)
                &&& forall|j: int| from <= j < pos ==> !#[trigger] occurs(log, text, j)
            },
            None => forall|j: int| from <= j ==> !#[trigger] occurs(log, text, j),
        },
    decreases log.len() - from + 1,
{
    if from + text.len() <= log.len() && !occurs(log, text, from) {
        lemma_first_at(log, text, from + 1);
    }
}

proof fn lemma_cursor(log: Seq<u8>, expected: Seq<ExpectedLine>, n: nat)
    ensures
        matched(log, expected, n).0 >= 0,
        matched(log, expected, n).1.len() == n,
    decreases n,
{
    if n > 0 {
        lemma_cursor(log, expected, (n - 1) as nat);
        let (cursor, found) = matched(log, expected, (n - 1) as nat);
        lemma_first_at(log, vstd::utf8::encode_utf8(expected[n - 1].text@), cursor);
    }
}

/// A line that is found stands where it was found, and not before the end of
/// the last line that was found in order before it; a line that is missed does
/// not stand anywhere behind that.
pub proof fn matches_are_in_order(log: Seq<u8>, expected: Seq<ExpectedLine>, n: nat)
    requires
        n > 0,
    ensures
        ({
            let (cursor, found) = matched(log, expected, (n - 1) as nat);
            let text = vstd::utf8::encode_utf8(expected[n - 1].text@);
            match matched(log, expected, n).1[n - 1] {
                Some(pos) => cursor <= pos && occurs(log, text, pos),
                None => forall|j: int| cursor <= j ==> !#[trigger] occurs(log, text, j),
            }
        }),
{
    lemma_cursor(log, expected, (n - 1) as nat);
    let (cursor, found) = matched(log, expected, (n - 1) as nat);
    lemma_first_at(log, vstd::utf8::encode_utf8(expected[n - 1].text@), cursor);
}

} // verus!
