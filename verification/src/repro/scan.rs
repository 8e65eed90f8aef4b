//! Searching compiled code for a copy that leaves out every other byte: a run
//! of byte stores to one base whose offsets are two apart.

use vstd::prelude::*;
use vstd::string::*;
use crate::lines::{chars_of, drop_blanks, line_spans, lines_from, skip_blanks, spans, trim_end, trim_start};
use crate::text::{dec, hex, push_dec, push_hex, push_str};

verus! {

/// The fewest stores that are worth a report.
pub const MIN_RUN: usize = 3;

/// How many other lines may lie between two stores of one run.
pub const MAX_GAP: usize = 3;

/// The first place of `ch` between `lo` and `hi`.
pub open spec fn first_char(c: Seq<char>, ch: char, lo: int, hi: int) -> Option<int>
    decreases hi - lo,
{
    if lo >= hi {
        None
    } else if c[lo] == ch {
        Some(lo)
    } else {
        first_char(c, ch, lo + 1, hi)
    }
}

/// The last place of `ch` between `lo` and `hi`.
pub open spec fn last_char(c: Seq<char>, ch: char, lo: int, hi: int) -> Option<int>
    decreases hi - lo,
{
    if lo >= hi {
        None
    } else if c[hi - 1] == ch {
        Some(hi - 1)
    } else {
        last_char(c, ch, lo, hi - 1)
    }
}

fn find_char(c: &[char], ch: char, lo: usize, hi: usize) -> (r: Option<usize>)
    requires
        lo <= hi <= c@.len(),
    ensures
        match (r, first_char(c@, ch, lo as int, hi as int)) {
            (Some(i), Some(j)) => i == j && lo <= i < hi && c@[i as int] == ch,
            (None, None) => true,
            _ => false,
        },
{
    let mut i: usize = lo;
    while i < hi
        invariant
            lo <= i <= hi <= c@.len(),
            first_char(c@, ch, lo as int, hi as int) == first_char(c@, ch, i as int, hi as int),
        decreases hi - i,
    {
        if c[i] == ch {
            return Some(i);
        }
        i += 1;
    }
    None
}

fn rfind_char(c: &[char], ch: char, lo: usize, hi: usize) -> (r: Option<usize>)
    requires
        lo <= hi <= c@.len(),
    ensures
        match (r, last_char(c@, ch, lo as int, hi as int)) {
            (Some(i), Some(j)) => i == j && lo <= i < hi && c@[i as int] == ch,
            (None, None) => true,
            _ => false,
        },
{
    let mut i: usize = hi;
    while i > lo
        invariant
            lo <= i <= hi <= c@.len(),
            last_char(c@, ch, lo as int, hi as int) == last_char(c@, ch, lo as int, i as int),
        decreases i - lo,
    {
        if c[i - 1] == ch {
            return Some((i - 1) as usize);
        }
        i -= 1;
    }
    None
}

/// The value of a digit in base sixteen.
pub open spec fn digit_of(ch: char) -> Option<int> {
    if '0' <= ch <= '9' {
        Some(ch as int - '0' as int)
    } else if 'a' <= ch <= 'f' {
        Some(ch as int - 'a' as int + 10)
    } else if 'A' <= ch <= 'F' {
        Some(ch as int - 'A' as int + 10)
    } else {
        None
    }
}

fn digit_value(ch: char) -> (r: Option<u32>)
    ensures
        match (r, digit_of(ch)) {
            (Some(a), Some(b)) => a == b && a < 16,
            (None, None) => true,
            _ => false,
        },
{
    if '0' <= ch && ch <= '9' {
        Some(ch as u32 - 48)
    } else if 'a' <= ch && ch <= 'f' {
        Some(ch as u32 - 97 + 10)
    } else if 'A' <= ch && ch <= 'F' {
        Some(ch as u32 - 65 + 10)
    } else {
        None
    }
}

/// The number that the digits from `lo` to `hi` write, if all are digits.
pub open spec fn digits(c: Seq<char>, lo: int, hi: int, radix: int) -> Option<int>
    decreases hi - lo,
{
    if lo >= hi {
        Some(0)
    } else {
        match (digits(c, lo, hi - 1, radix), digit_of(c[hi - 1])) {
            (Some(v), Some(d)) => if d < radix {
                Some(v * radix + d)
            } else {
                None
            },
            _ => None,
        }
    }
}

/// The number that the characters from `lo` to `hi` write, with or without a
/// sign; nothing if they write none, or one that has no place in 64 bits.
pub open spec fn number(c: Seq<char>, lo: int, hi: int, radix: int) -> Option<int> {
    let signed = lo < hi && (c[lo] == '-' || c[lo] == '+');
    let from = if signed {
        lo + 1
    } else {
        lo
    };
    if from >= hi {
        None
    } else {
        match digits(c, from, hi, radix) {
            Some(v) => {
                let w = if c[lo] == '-' {
                    -v
                } else {
                    v
                };
                if i64::MIN <= w <= i64::MAX {
                    Some(w)
                } else {
                    None
                }
            },
            None => None,
        }
    }
}

proof fn lemma_digits_grow(c: Seq<char>, lo: int, mid: int, hi: int, radix: int)
    requires
        lo <= mid <= hi,
        radix == 10 || radix == 16,
    ensures
        match (digits(c, lo, mid, radix), digits(c, lo, hi, radix)) {
            (Some(a), Some(b)) => 0 <= a <= b,
            (None, r) => r is None,
            (Some(a), None) => 0 <= a,
        },
    decreases hi - lo,
{
    if lo < mid {
        lemma_digits_grow(c, lo, lo, mid - 1, radix);
    }
    if mid < hi {
        lemma_digits_grow(c, lo, mid, hi - 1, radix);
    }
}

fn parse_number(c: &[char], lo: usize, hi: usize, radix: u32) -> (r: Option<i64>)
    requires
        lo <= hi <= c@.len(),
        radix == 10 || radix == 16,
    ensures
        match (r, number(c@, lo as int, hi as int, radix as int)) {
            (Some(a), Some(b)) => a == b,
            (None, None) => true,
            _ => false,
        },
{
    let signed = lo < hi && (c[lo] == '-' || c[lo] == '+');
    let from: usize = if signed {
        lo + 1
    } else {
        lo
    };
    if from >= hi {
        return None;
    }
    let minus = c[lo] == '-';
    let mut v: i128 = 0;
    let mut i: usize = from;
    while i < hi
        invariant
            lo <= from <= i <= hi <= c@.len(),
            from == (if lo < hi && (c@[lo as int] == '-' || c@[lo as int] == '+') {
                lo + 1
            } else {
                lo as int
            }),
            from < hi,
            minus == (c@[lo as int] == '-'),
            radix == 10 || radix == 16,
            0 <= v <= 0x8000_0000_0000_0000,
            digits(c@, from as int, i as int, radix as int) == Some(v as int),
        decreases hi - i,
    {
        proof {
            lemma_digits_grow(c@, from as int, i + 1, hi as int, radix as int);
        }
        match digit_value(c[i]) {
            Some(d) => {
                if d >= radix {
                    return None;
                }
                v = v * radix as i128 + d as i128;
            },
            None => {
                return None;
            },
        }
        i += 1;
        if v > 0x8000_0000_0000_0000 {
            return None;
        }
    }
    let w: i128 = if minus {
        -v
    } else {
        v
    };
    if w <= 0x7fff_ffff_ffff_ffff {
        Some(w as i64)
    } else {
        None
    }
}

/// An offset and where its base is written.
#[derive(Clone, Copy)]
pub struct DispBase {
    pub disp: i64,
    pub lo: usize,
    pub hi: usize,
}

/// The offset that stands before the base: none, or a number, in hexadecimal
/// digits behind `0x` or `-0x`, else in decimal ones. The least number there is
/// stays itself when its sign is turned.
pub open spec fn displacement(c: Seq<char>, lo: int, open: int) -> Option<int> {
    if lo == open {
        Some(0)
    } else if open - lo >= 3 && c[lo] == '-' && c[lo + 1] == '0' && c[lo + 2] == 'x' {
        match number(c, lo + 3, open, 16) {
            Some(v) => Some(
                if v == i64::MIN {
                    v
                } else {
                    -v
                },
            ),
            None => None,
        }
    } else if open - lo >= 2 && c[lo] == '0' && c[lo + 1] == 'x' {
        number(c, lo + 2, open, 16)
    } else {
        number(c, lo, open, 10)
    }
}

/// The brackets of an operand, if it has any, stand in order.
pub open spec fn brackets_in_order(c: Seq<char>, lo: int, hi: int) -> bool {
    match (first_char(c, '(', lo, hi), last_char(c, ')', lo, hi)) {
        (Some(a), Some(b)) => a < b,
        _ => true,
    }
}

/// An operand as offset and base: `0x86e(%rsp)`, `-0x30(%rcx)`, `(%rax)`.
pub open spec fn disp_base(c: Seq<char>, lo: int, hi: int) -> Option<(int, int, int)> {
    match (first_char(c, '(', lo, hi), last_char(c, ')', lo, hi)) {
        (Some(a), Some(b)) => match displacement(c, lo, a) {
            Some(d) => Some((d, a + 1, b)),
            None => None,
        },
        _ => None,
    }
}

/// Read an operand.
pub fn parse_disp_base(c: &[char], lo: usize, hi: usize) -> (r: Option<DispBase>)
    requires
        lo <= hi <= c@.len(),
        brackets_in_order(c@, lo as int, hi as int),
    ensures
        match (r, disp_base(c@, lo as int, hi as int)) {
            (Some(d), Some(s)) => d.disp == s.0 && d.lo == s.1 && d.hi == s.2 && lo <= d.lo <= d.hi
                <= hi,
            (None, None) => true,
            _ => false,
        },
{
    let open: usize = match find_char(c, '(', lo, hi) {
        Some(a) => a,
        None => {
            return None;
        },
    };
    let close: usize = match rfind_char(c, ')', lo, hi) {
        Some(b) => b,
        None => {
            return None;
        },
    };
    let disp: Option<i64> = if lo == open {
        Some(0)
    } else if open - lo >= 3 && c[lo] == '-' && c[lo + 1] == '0' && c[lo + 2] == 'x' {
        match parse_number(c, lo + 3, open, 16) {
            Some(v) => Some(
                if v == i64::MIN {
                    v
                } else {
                    -v
                },
            ),
            None => None,
        }
    } else if open - lo >= 2 && c[lo] == '0' && c[lo + 1] == 'x' {
        parse_number(c, lo + 2, open, 16)
    } else {
        parse_number(c, lo, open, 10)
    };
    match disp {
        Some(d) => Some(DispBase { disp: d, lo: open + 1, hi: close }),
        None => None,
    }
}

/// A byte store: on which line, at which address, to which base and offset.
#[derive(Clone, Copy)]
pub struct ByteStore {
    pub line_no: usize,
    pub addr_lo: usize,
    pub addr_hi: usize,
    pub base_lo: usize,
    pub base_hi: usize,
    pub disp: i64,
}

/// A [`ByteStore`] of a text, with what stands there.
pub struct StoreView {
    pub line_no: int,
    pub addr: Seq<char>,
    pub base: Seq<char>,
    pub disp: int,
}

/// What a store is in the text `c`.
pub open spec fn store_view(c: Seq<char>, s: ByteStore) -> StoreView {
    StoreView {
        line_no: s.line_no as int,
        addr: c.subrange(s.addr_lo as int, s.addr_hi as int),
        base: c.subrange(s.base_lo as int, s.base_hi as int),
        disp: s.disp as int,
    }
}

pub open spec fn store_views(c: Seq<char>, s: Seq<ByteStore>) -> Seq<StoreView> {
    s.map_values(|b: ByteStore| store_view(c, b))
}

/// Where the name of the function is that the line from `lo` to `hi` starts:
/// `ffffffff80013d60 <name>:`.
pub open spec fn label(c: Seq<char>, lo: int, hi: int) -> Option<(int, int)> {
    if hi - lo >= 2 && c[hi - 2] == '>' && c[hi - 1] == ':' {
        match first_char(c, '<', lo, hi) {
            Some(open) => Some((open + 1, hi - 2)),
            None => None,
        }
    } else {
        None
    }
}

/// All characters are hexadecimal digits.
pub open spec fn all_hex(c: Seq<char>, lo: int, hi: int) -> bool {
    forall|i: int| lo <= i < hi ==> digit_of(#[trigger] c[i]) is Some
}

/// Where the operands of a byte move start, between `lo` and `hi`.
pub open spec fn movb_operands(c: Seq<char>, lo: int, hi: int) -> Option<int> {
    if hi - lo >= 5 && c[lo] == 'm' && c[lo + 1] == 'o' && c[lo + 2] == 'v' && c[lo + 3] == 'b' && (
    c[lo + 4] == '\t' || c[lo + 4] == ' ') {
        Some(lo + 5)
    } else {
        None
    }
}

/// Where a line that moves a byte out of a register has its address, and where
/// its destination: `addr:   movb  %al, DEST`.
pub open spec fn move_parts(c: Seq<char>, lo: int, hi: int) -> Option<(int, int, int, int)> {
    match first_char(c, ':', lo, hi) {
        None => None,
        Some(colon) => {
            let alo = trim_start(c, lo, colon);
            let ahi = trim_end(c, alo, colon);
            let rlo = trim_start(c, colon + 1, hi);
            let rhi = trim_end(c, rlo, hi);
            if !all_hex(c, alo, ahi) {
                None
            } else {
                match movb_operands(c, rlo, rhi) {
                    None => None,
                    Some(ops) => match first_char(c, ',', ops, rhi) {
                        None => None,
                        Some(comma) => {
                            let slo = trim_start(c, ops, comma);
                            let dlo = trim_start(c, comma + 1, rhi);
                            let dhi = trim_end(c, dlo, rhi);
                            if slo < trim_end(c, slo, comma) && c[slo] == '%' {
                                Some((alo, ahi, dlo, dhi))
                            } else {
                                None
                            }
                        },
                    },
                }
            }
        },
    }
}

/// The line can be read: its destination, if it has one, has its brackets in
/// order.
pub open spec fn readable_line(c: Seq<char>, lo: int, hi: int) -> bool {
    match move_parts(c, lo, hi) {
        Some((_, _, dlo, dhi)) => label(c, lo, hi) is None ==> brackets_in_order(c, dlo, dhi),
        None => true,
    }
}

/// All lines can be read.
pub open spec fn readable(c: Seq<char>) -> bool {
    forall|k: int|
        0 <= k < lines_from(c, 0).len() ==> readable_line(
            c,
            (#[trigger] lines_from(c, 0)[k]).0,
            lines_from(c, 0)[k].1,
        )
}

/// The store on a line, if it is one.
pub open spec fn store_at(c: Seq<char>, line_no: int, lo: int, hi: int) -> Option<StoreView> {
    match move_parts(c, lo, hi) {
        None => None,
        Some((alo, ahi, dlo, dhi)) => match disp_base(c, dlo, dhi) {
            None => None,
            Some((disp, blo, bhi)) => Some(
                StoreView { line_no, addr: c.subrange(alo, ahi), base: c.subrange(blo, bhi), disp },
            ),
        },
    }
}

fn is_all_hex(c: &[char], lo: usize, hi: usize) -> (r: bool)
    requires
        lo <= hi <= c@.len(),
    ensures
        r == all_hex(c@, lo as int, hi as int),
{
    let mut i: usize = lo;
    while i < hi
        invariant
            lo <= i <= hi <= c@.len(),
            all_hex(c@, lo as int, i as int),
        decreases hi - i,
    {
        if digit_value(c[i]).is_none() {
            assert(digit_of(c@[i as int]) is None);
            return false;
        }
        i += 1;
    }
    true
}

fn find_label(c: &[char], lo: usize, hi: usize) -> (r: Option<(usize, usize)>)
    requires
        lo <= hi <= c@.len(),
    ensures
        match (r, label(c@, lo as int, hi as int)) {
            (Some(a), Some(b)) => a.0 == b.0 && a.1 == b.1 && lo <= a.0 <= a.1 <= hi,
            (None, None) => true,
            _ => false,
        },
{
    if hi - lo >= 2 && c[hi - 2] == '>' && c[hi - 1] == ':' {
        match find_char(c, '<', lo, hi) {
            Some(open) => {
                assert(open != hi - 2 && open != hi - 1);
                Some((open + 1, (hi - 2) as usize))
            },
            None => None,
        }
    } else {
        None
    }
}

fn find_move(c: &[char], lo: usize, hi: usize) -> (r: Option<(usize, usize, usize, usize)>)
    requires
        lo <= hi <= c@.len(),
    ensures
        match (r, move_parts(c@, lo as int, hi as int)) {
            (Some(a), Some(b)) => a.0 == b.0 && a.1 == b.1 && a.2 == b.2 && a.3 == b.3 && lo <= a.0
                <= a.1 <= hi && lo <= a.2 <= a.3 <= hi,
            (None, None) => true,
            _ => false,
        },
{
    let colon: usize = match find_char(c, ':', lo, hi) {
        Some(i) => i,
        None => {
            return None;
        },
    };
    let alo: usize = skip_blanks(c, lo, colon);
    let ahi: usize = drop_blanks(c, alo, colon);
    if !is_all_hex(c, alo, ahi) {
        return None;
    }
    let rlo: usize = skip_blanks(c, colon + 1, hi);
    let rhi: usize = drop_blanks(c, rlo, hi);
    if rhi - rlo < 5 {
        return None;
    }
    if !(c[rlo] == 'm' && c[rlo + 1] == 'o' && c[rlo + 2] == 'v' && c[rlo + 3] == 'b' && (c[rlo + 4]
        == '\t' || c[rlo + 4] == ' ')) {
        return None;
    }
    let ops: usize = rlo + 5;
    let comma: usize = match find_char(c, ',', ops, rhi) {
        Some(i) => i,
        None => {
            return None;
        },
    };
    let slo: usize = skip_blanks(c, ops, comma);
    let shi: usize = drop_blanks(c, slo, comma);
    let dlo: usize = skip_blanks(c, comma + 1, rhi);
    let dhi: usize = drop_blanks(c, dlo, rhi);
    if slo < shi && c[slo] == '%' {
        Some((alo, ahi, dlo, dhi))
    } else {
        None
    }
}

/// The stores lie within the text.
pub open spec fn stores_fit(c: Seq<char>, s: Seq<ByteStore>) -> bool {
    forall|i: int|
        0 <= i < s.len() ==> {
            let b = #[trigger] s[i];
            b.addr_lo <= b.addr_hi <= c.len() && b.base_lo <= b.base_hi <= c.len()
        }
}

/// The store on a line, if it is one.
fn find_store(c: &[char], line_no: usize, lo: usize, hi: usize) -> (r: Option<ByteStore>)
    requires
        lo <= hi <= c@.len(),
        label(c@, lo as int, hi as int) is None,
        readable_line(c@, lo as int, hi as int),
    ensures
        match (r, store_at(c@, line_no as int, lo as int, hi as int)) {
            (Some(a), Some(b)) => store_view(c@, a) == b && stores_fit(c@, seq![a]),
            (None, None) => true,
            _ => false,
        },
{
    match find_move(c, lo, hi) {
        None => None,
        Some((alo, ahi, dlo, dhi)) => {
            match parse_disp_base(c, dlo, dhi) {
                None => None,
                Some(d) => Some(
                    ByteStore {
                        line_no,
                        addr_lo: alo,
                        addr_hi: ahi,
                        base_lo: d.lo,
                        base_hi: d.hi,
                        disp: d.disp,
                    },
                ),
            }
        },
    }
}

/// The store at `b` goes on with the run of the one at `a`.
pub open spec fn goes_on(a: StoreView, b: StoreView) -> bool {
    &&& a.base == b.base
    &&& b.disp - a.disp == 2 || a.disp - b.disp == 2
    &&& b.line_no - a.line_no - 1 <= MAX_GAP
}

/// The last store of the run that `i` is in.
pub open spec fn run_end(s: Seq<StoreView>, i: int) -> int
    decreases s.len() - i,
{
    if 0 <= i && i + 1 < s.len() && goes_on(s[i], s[i + 1]) {
        run_end(s, i + 1)
    } else {
        i
    }
}

/// A run that is worth a report.
pub struct Finding {
    pub func: String,
    pub base: String,
    pub addr: String,
    pub offsets: Vec<i64>,
}

/// The contents of a [`Finding`].
pub struct FindingView {
    pub func: Seq<char>,
    pub base: Seq<char>,
    pub addr: Seq<char>,
    pub offsets: Seq<int>,
}

pub open spec fn finding_view(f: Finding) -> FindingView {
    FindingView {
        func: f.func@,
        base: f.base@,
        addr: f.addr@,
        offsets: f.offsets@.map_values(|d: i64| d as int),
    }
}

pub open spec fn finding_views(f: Seq<Finding>) -> Seq<FindingView> {
    f.map_values(|x: Finding| finding_view(x))
}

/// The report on the run from `i` to `j`.
pub open spec fn finding_of(s: Seq<StoreView>, i: int, j: int, func: Seq<char>) -> FindingView {
    FindingView {
        func,
        base: s[i].base,
        addr: s[i].addr,
        offsets: Seq::new((j - i + 1) as nat, |k: int| s[i + k].disp),
    }
}

/// The reports on the stores of one function, from `i` on.
pub open spec fn runs(s: Seq<StoreView>, i: int, func: Seq<char>) -> Seq<FindingView>
    decreases s.len() - i,
{
    if i < 0 || i >= s.len() {
        Seq::empty()
    } else {
        let j = run_end(s, i);
        if j < i || j >= s.len() {
            Seq::empty()
        } else if j - i + 1 >= MIN_RUN {
            seq![finding_of(s, i, j, func)] + runs(s, j + 1, func)
        } else {
            runs(s, j + 1, func)
        }
    }
}

/// Whether two parts of the text read the same.
fn same_text(c: &[char], alo: usize, ahi: usize, blo: usize, bhi: usize) -> (r: bool)
    requires
        alo <= ahi <= c@.len(),
        blo <= bhi <= c@.len(),
    ensures
        r == (c@.subrange(alo as int, ahi as int) == c@.subrange(blo as int, bhi as int)),
{
    let ghost a = c@.subrange(alo as int, ahi as int);
    let ghost b = c@.subrange(blo as int, bhi as int);
    if ahi - alo != bhi - blo {
        assert(a.len() != b.len());
        return false;
    }
    let mut i: usize = 0;
    while i < ahi - alo
        invariant
            alo <= ahi <= c@.len(),
            blo <= bhi <= c@.len(),
            ahi - alo == bhi - blo,
            i <= ahi - alo,
            a == c@.subrange(alo as int, ahi as int),
            b == c@.subrange(blo as int, bhi as int),
            forall|k: int| 0 <= k < i ==> #[trigger] a[k] == b[k],
        decreases ahi - alo - i,
    {
        if c[alo + i] != c[blo + i] {
            assert(a[i as int] != b[i as int]);
            return false;
        }
        i += 1;
    }
    assert(a =~= b);
    true
}

proof fn lemma_run_end(s: Seq<StoreView>, i: int)
    requires
        0 <= i < s.len(),
    ensures
        i <= run_end(s, i) < s.len(),
    decreases s.len() - i,
{
    if i + 1 < s.len() && goes_on(s[i], s[i + 1]) {
        lemma_run_end(s, i + 1);
    }
}

/// The last store of the run that `i` is in.
fn find_run_end(c: &[char], s: &Vec<ByteStore>, i: usize) -> (r: usize)
    requires
        i < s@.len(),
        stores_fit(c@, s@),
    ensures
        r == run_end(store_views(c@, s@), i as int),
        i <= r < s@.len(),
{
    let ghost v = store_views(c@, s@);
    let mut j: usize = i;
    while s.len() - j >= 2
        invariant_except_break
            run_end(v, i as int) == run_end(v, j as int),
        invariant
            i <= j < s@.len(),
            stores_fit(c@, s@),
            v == store_views(c@, s@),
        ensures
            j == run_end(v, i as int),
        decreases s@.len() - j,
    {
        let a: ByteStore = s[j];
        let b: ByteStore = s[j + 1];
        assert(v[j as int] == store_view(c@, a) && v[j + 1] == store_view(c@, b));
        let step: i128 = b.disp as i128 - a.disp as i128;
        let near = b.line_no <= a.line_no || b.line_no - a.line_no - 1 <= MAX_GAP;
        if same_text(c, a.base_lo, a.base_hi, b.base_lo, b.base_hi) && (step == 2 || step == -2)
            && near {
            j += 1;
        } else {
            break;
        }
    }
    j
}

/// The part of a text from `lo` to `hi`.
fn part(text: &str, lo: usize, hi: usize) -> (r: String)
    requires
        lo <= hi <= text@.len(),
    ensures
        r@ == text@.subrange(lo as int, hi as int),
{
    text.substring_char(lo, hi).to_owned()
}

/// Report the runs of one function, and forget its stores.
fn flush(
    text: &str,
    c: &[char],
    func: (usize, usize),
    named: bool,
    s: &mut Vec<ByteStore>,
    out: &mut Vec<Finding>,
)
    requires
        c@ == text@,
        stores_fit(c@, old(s)@),
        func.0 <= func.1 <= c@.len(),
    ensures
        final(s)@.len() == 0,
        finding_views(final(out)@) == finding_views(old(out)@) + runs(
            store_views(c@, old(s)@),
            0,
            func_name(c@, func, named),
        ),
{
    let ghost v = store_views(c@, s@);
    let ghost name = func_name(c@, func, named);
    let ghost before = finding_views(out@);
    let ghost had = s@;
    let mut i: usize = 0;
    while i < s.len()
        invariant
            i <= s@.len(),
            s@ == had,
            c@ == text@,
            stores_fit(c@, s@),
            func.0 <= func.1 <= c@.len(),
            v == store_views(c@, s@),
            name == func_name(c@, func, named),
            finding_views(out@) + runs(v, i as int, name) == before + runs(v, 0, name),
        decreases s@.len() - i,
    {
        let j: usize = find_run_end(c, s, i);
        let ghost was = out@;
        if j - i + 1 >= MIN_RUN {
            let mut offsets: Vec<i64> = Vec::new();
            let mut k: usize = i;
            while k <= j
                invariant
                    i <= k <= j + 1,
                    j < s@.len(),
                    offsets@.len() == k - i,
                    forall|m: int| 0 <= m < k - i ==> #[trigger] offsets@[m] == s@[i + m].disp,
                decreases j + 1 - k,
            {
                offsets.push(s[k].disp);
                assert(s@.len() == s.len());
                k += 1;
            }
            let first: ByteStore = s[i];
            let func_text = if named {
                part(text, func.0, func.1)
            } else {
                "<unknown>".to_owned()
            };
            let f = Finding {
                func: func_text,
                base: part(text, first.base_lo, first.base_hi),
                addr: part(text, first.addr_lo, first.addr_hi),
                offsets,
            };
            assert(v[i as int] == store_view(c@, first));
            assert(finding_view(f).offsets =~= finding_of(v, i as int, j as int, name).offsets);
            out.push(f);
            assert(finding_views(out@) =~= finding_views(was).push(
                finding_of(v, i as int, j as int, name),
            ));
            assert(finding_views(out@) + runs(v, j + 1, name) =~= finding_views(was) + runs(
                v,
                i as int,
                name,
            ));
        }
        i = j + 1;
    }
    assert(finding_views(out@) + runs(v, i as int, name) =~= finding_views(out@));
    s.clear();
}

/// The name of a function; the stores before the first one belong to none.
pub open spec fn func_name(c: Seq<char>, func: (usize, usize), named: bool) -> Seq<char> {
    if named {
        c.subrange(func.0 as int, func.1 as int)
    } else {
        "<unknown>"@
    }
}

/// What a search has found so far.
pub struct ScanState {
    pub func: Seq<char>,
    pub stores: Seq<StoreView>,
    pub findings: Seq<FindingView>,
}

/// What a search of the first `n` lines has found: a line that starts a function
/// ends the one before.
pub open spec fn scanned(c: Seq<char>, lines: Seq<(int, int)>, n: nat) -> ScanState
    decreases n,
{
    if n == 0 {
        ScanState { func: "<unknown>"@, stores: Seq::empty(), findings: Seq::empty() }
    } else {
        let st = scanned(c, lines, (n - 1) as nat);
        let (lo, hi) = lines[n - 1];
        match label(c, lo, hi) {
            Some((a, b)) => ScanState {
                func: c.subrange(a, b),
                stores: Seq::empty(),
                findings: st.findings + runs(st.stores, 0, st.func),
            },
            None => match store_at(c, n - 1, lo, hi) {
                Some(s) => ScanState { func: st.func, stores: st.stores.push(s), findings: st.findings },
                None => st,
            },
        }
    }
}

/// All runs of a text.
pub open spec fn all_findings(c: Seq<char>) -> Seq<FindingView> {
    let st = scanned(c, lines_from(c, 0), lines_from(c, 0).len());
    st.findings + runs(st.stores, 0, st.func)
}

/// Whether a text of compiled code can be searched.
pub fn is_readable(text: &str) -> (r: bool)
    ensures
        r == readable(text@),
{
    let chars = chars_of(text);
    let c = chars.as_slice();
    let lines = line_spans(c);
    let ghost all = lines_from(c@, 0);
    assert(spans(lines@).len() == lines@.len());
    let mut i: usize = 0;
    while i < lines.len()
        invariant
            i <= lines@.len(),
            c@ == text@,
            all == lines_from(c@, 0),
            spans(lines@) == all,
            all.len() == lines@.len(),
            forall|k: int|
                0 <= k < lines@.len() ==> (#[trigger] lines@[k]).0 <= lines@[k].1 && lines@[k].1
                    <= c@.len(),
            forall|k: int| 0 <= k < i ==> readable_line(c@, (#[trigger] all[k]).0, all[k].1),
        decreases lines@.len() - i,
    {
        let (lo, hi): (usize, usize) = lines[i];
        assert(spans(lines@)[i as int] == (lo as int, hi as int));
        assert(all[i as int] == (lo as int, hi as int));
        if find_label(c, lo, hi).is_none() {
            match find_move(c, lo, hi) {
                Some((_, _, dlo, dhi)) => {
                    match (find_char(c, '(', dlo, dhi), rfind_char(c, ')', dlo, dhi)) {
                        (Some(a), Some(b)) => {
                            if a > b {
                                assert(!readable_line(c@, all[i as int].0, all[i as int].1));
                                return false;
                            }
                        },
                        _ => {},
                    }
                },
                None => {},
            }
        }
        i += 1;
    }
    true
}

/// Search a text of compiled code.
pub fn scan(text: &str) -> (r: Vec<Finding>)
    requires
        readable(text@),
    ensures
        finding_views(r@) == all_findings(text@),
{
    let chars = chars_of(text);
    let c = chars.as_slice();
    let lines = line_spans(c);
    let ghost all = lines_from(c@, 0);
    assert(spans(lines@).len() == lines@.len());
    let mut func: (usize, usize) = (0, 0);
    let mut named = false;
    let mut stores: Vec<ByteStore> = Vec::new();
    let mut out: Vec<Finding> = Vec::new();
    let mut i: usize = 0;
    assert(store_views(c@, stores@) =~= Seq::<StoreView>::empty());
    assert(finding_views(out@) =~= Seq::<FindingView>::empty());
    while i < lines.len()
        invariant
            i <= lines@.len(),
            c@ == text@,
            readable(c@),
            all == lines_from(c@, 0),
            spans(lines@) == all,
            all.len() == lines@.len(),
            forall|k: int|
                0 <= k < lines@.len() ==> (#[trigger] lines@[k]).0 <= lines@[k].1 && lines@[k].1
                    <= c@.len(),
            func.0 <= func.1 <= c@.len(),
            stores_fit(c@, stores@),
            func_name(c@, func, named) == scanned(c@, all, i as nat).func,
            store_views(c@, stores@) == scanned(c@, all, i as nat).stores,
            finding_views(out@) == scanned(c@, all, i as nat).findings,
        decreases lines@.len() - i,
    {
        let (lo, hi): (usize, usize) = lines[i];
        assert(spans(lines@)[i as int] == (lo as int, hi as int));
        assert(all[i as int] == (lo as int, hi as int));
        match find_label(c, lo, hi) {
            Some(name) => {
                flush(text, c, func, named, &mut stores, &mut out);
                func = name;
                named = true;
                assert(store_views(c@, stores@) =~= Seq::<StoreView>::empty());
            },
            None => {
                let ghost had = stores@;
                match find_store(c, i, lo, hi) {
                    Some(s) => {
                        stores.push(s);
                        assert(store_views(c@, stores@) =~= store_views(c@, had).push(
                            store_view(c@, s),
                        ));
                        assert(stores_fit(c@, stores@)) by {
                            assert(seq![s][0] == s);
                        }
                    },
                    None => {},
                }
            },
        }
        i += 1;
    }
    flush(text, c, func, named, &mut stores, &mut out);
    out
}

/// The offsets of a report are two apart, and there are at least [`MIN_RUN`].
pub open spec fn stride_two(f: FindingView) -> bool {
    &&& f.offsets.len() >= MIN_RUN
    &&& forall|m: int|
        0 <= m && m + 1 < f.offsets.len() ==> f.offsets[m + 1] - #[trigger] f.offsets[m] == 2
            || f.offsets[m] - f.offsets[m + 1] == 2
}

proof fn lemma_run_goes_on(s: Seq<StoreView>, i: int, k: int)
    requires
        0 <= i < s.len(),
        i <= k < run_end(s, i),
    ensures
        k + 1 < s.len(),
        goes_on(s[k], s[k + 1]),
    decreases s.len() - i,
{
    lemma_run_end(s, i);
    if i < k {
        lemma_run_goes_on(s, i + 1, k);
    }
}

/// Every report on the stores of a function is on stores that are two apart.
pub proof fn runs_are_stride_two(s: Seq<StoreView>, i: int, func: Seq<char>, k: int)
    requires
        0 <= i,
        0 <= k < runs(s, i, func).len(),
    ensures
        stride_two(runs(s, i, func)[k]),
        runs(s, i, func)[k].func == func,
    decreases s.len() - i,
{
    let j = run_end(s, i);
    lemma_run_end(s, i);
    if j - i + 1 >= MIN_RUN {
        if k == 0 {
            let f = finding_of(s, i, j, func);
            assert forall|m: int| 0 <= m && m + 1 < f.offsets.len() implies f.offsets[m + 1]
                - #[trigger] f.offsets[m] == 2 || f.offsets[m] - f.offsets[m + 1] == 2 by {
                lemma_run_goes_on(s, i, i + m);
            }
        } else {
            runs_are_stride_two(s, j + 1, func, k - 1);
        }
    } else {
        runs_are_stride_two(s, j + 1, func, k);
    }
}

/// The offsets from the first to before the `n`th, with blanks between.
pub open spec fn offset_list(o: Seq<i64>, n: nat) -> Seq<u8>
    decreases n,
{
    if n == 0 {
        Seq::empty()
    } else {
        offset_list(o, (n - 1) as nat) + (if n == 1 {
            Seq::empty()
        } else {
            " ".spec_bytes()
        }) + "0x".spec_bytes() + hex((o[n - 1] as u64) as nat, 0)
    }
}

/// What is said of a run.
pub fn finding_report(f: &Finding) -> (r: Vec<u8>)
    ensures
        r@ == "SUSPECT stride-2 byte-store run (".spec_bytes() + dec(f.offsets@.len())
            + " stores) in\n  ".spec_bytes() + vstd::utf8::encode_utf8(f.func@)
            + "\n  base (".spec_bytes() + vstd::utf8::encode_utf8(f.base@)
            + "), offsets: ".spec_bytes() + offset_list(f.offsets@, f.offsets@.len())
            + "\n  first at ".spec_bytes() + vstd::utf8::encode_utf8(f.addr@)
            + "\n\n".spec_bytes(),
{
    let mut out: Vec<u8> = Vec::new();
    push_str(&mut out, "SUSPECT stride-2 byte-store run (");
    push_dec(&mut out, f.offsets.len() as u64);
    push_str(&mut out, " stores) in\n  ");
    push_str(&mut out, f.func.as_str());
    push_str(&mut out, "\n  base (");
    push_str(&mut out, f.base.as_str());
    push_str(&mut out, "), offsets: ");
    let mut list: Vec<u8> = Vec::new();
    let mut i: usize = 0;
    while i < f.offsets.len()
        invariant
            i <= f.offsets@.len(),
            list@ == offset_list(f.offsets@, i as nat),
        decreases f.offsets@.len() - i,
    {
        if i > 0 {
            push_str(&mut list, " ");
        }
        push_str(&mut list, "0x");
        push_hex(&mut list, f.offsets[i] as u64, 0);
        i += 1;
        assert(list@ =~= offset_list(f.offsets@, i as nat));
    }
    out.append(&mut list);
    push_str(&mut out, "\n  first at ");
    push_str(&mut out, f.addr.as_str());
    push_str(&mut out, "\n\n");
    out
}

} // verus!
