//! What is found in a listing of compiled code, and what the test tables are filled with.

use vstd::prelude::*;
use crate::lines::{trim_end, trim_start, white};
use super::cases::{expected_u32, file_vma, filled_action, filled_fd, int_vma, name_byte, parent_vma};
use super::scan::{all_hex, digit_of, digits, displacement, finding_of, first_char, goes_on, last_char, move_parts, movb_operands, number, run_end, runs, store_at, StoreView};

verus! {

/// A character that a number in the listing is written with.
pub open spec fn hex_char(c: char) -> bool {
    '0' <= c <= '9' || 'a' <= c <= 'f'
}

/// A character of a register's name.
pub open spec fn name_char(c: char) -> bool {
    'a' <= c <= 'z' || '0' <= c <= '9' || c == '%'
}

/// What hexadecimal digits stand for.
pub open spec fn hex_text_value(h: Seq<char>) -> int
    decreases h.len(),
{
    if h.len() == 0 {
        0
    } else {
        hex_text_value(h.drop_last()) * 16 + (if h.last() <= '9' {
            h.last() as int - '0' as int
        } else {
            h.last() as int - 'a' as int + 10
        })
    }
}

/// A line of the listing with a store of a register's byte: its address, the
/// instruction, the register, and where the byte goes.
pub open spec fn store_line(addr: Seq<char>, reg: Seq<char>, h: Seq<char>, base: Seq<char>) -> Seq<char> {
    addr + seq![':', '\t', 'm', 'o', 'v', 'b', '\t'] + reg + seq![',', '0', 'x'] + h + seq!['('] + base
        + seq![')']
}

proof fn lemma_first(c: Seq<char>, ch: char, lo: int, hi: int, at: int)
    requires
        0 <= lo <= at < hi <= c.len(),
        c[at] == ch,
        forall|k: int| lo <= k < at ==> #[trigger] c[k] != ch,
    ensures
        first_char(c, ch, lo, hi) == Some(at),
    decreases at - lo,
{
    if lo < at {
        assert(c[lo] != ch);
        lemma_first(c, ch, lo + 1, hi, at);
    }
}

proof fn lemma_untrimmed(c: Seq<char>, lo: int, hi: int)
    requires
        0 <= lo < hi <= c.len(),
        !white(c[lo]),
        !white(c[hi - 1]),
    ensures
        trim_start(c, lo, hi) == lo,
        trim_end(c, lo, hi) == hi,
{
}

proof fn lemma_hex_digits(c: Seq<char>, lo: int, h: Seq<char>)
    requires
        0 <= lo,
        lo + h.len() <= c.len(),
        c.subrange(lo, lo + h.len()) == h,
        forall|k: int| 0 <= k < h.len() ==> hex_char(#[trigger] h[k]),
    ensures
        digits(c, lo, lo + h.len(), 16) == Some(hex_text_value(h)),
        hex_text_value(h) >= 0,
    decreases h.len(),
{
    if h.len() > 0 {
        let r = h.drop_last();
        assert(c.subrange(lo, lo + r.len()) =~= r) by {
            assert forall|k: int| 0 <= k < r.len() implies c.subrange(lo, lo + r.len())[k] == r[k] by {
                assert(c.subrange(lo, lo + h.len())[k] == h[k]);
            }
        }
        assert forall|k: int| 0 <= k < r.len() implies hex_char(#[trigger] r[k]) by {
            assert(hex_char(h[k]));
        }
        lemma_hex_digits(c, lo, r);
        assert(c[lo + h.len() - 1] == h.last()) by {
            assert(c.subrange(lo, lo + h.len())[h.len() - 1] == h.last());
        }
        assert(hex_char(h[h.len() - 1]));
    }
}

/// A line with a store of a byte is read as what it says: at which address it stands,
/// relative to what it stores, and how far from it.
pub proof fn written_store_is_read(
    line_no: int,
    addr: Seq<char>,
    reg: Seq<char>,
    h: Seq<char>,
    base: Seq<char>,
)
    requires
        addr.len() > 0,
        forall|k: int| 0 <= k < addr.len() ==> hex_char(#[trigger] addr[k]),
        reg.len() > 0,
        reg[0] == '%',
        forall|k: int| 0 <= k < reg.len() ==> name_char(#[trigger] reg[k]),
        h.len() > 0,
        forall|k: int| 0 <= k < h.len() ==> hex_char(#[trigger] h[k]),
        hex_text_value(h) <= i64::MAX,
        forall|k: int| 0 <= k < base.len() ==> name_char(#[trigger] base[k]),
    ensures
        ({
            let c = store_line(addr, reg, h, base);
            store_at(c, line_no, 0, c.len() as int) == Some(
                StoreView { line_no, addr, base, disp: hex_text_value(h) },
            )
        }),
{
    let c = store_line(addr, reg, h, base);
    let a = addr.len() as int;
    let n = c.len() as int;
    let r = a + 7;
    let comma = r + reg.len() as int;
    let d = comma + 1;
    let open = d + 2 + h.len() as int;
    lemma_places(addr, reg, h, base);
    assert forall|k: int| 0 <= k < a implies #[trigger] c[k] != ':' && !white(c[k]) && digit_of(c[k]) is Some by {
        assert(c[k] == addr[k]);
        assert(hex_char(addr[k]));
    }
    assert forall|k: int| r <= k < comma implies #[trigger] c[k] != ',' && !white(c[k]) by {
        assert(c[k] == reg[k - r]);
        assert(name_char(reg[k - r]));
    }
    assert forall|k: int| d <= k < open implies #[trigger] c[k] != '(' by {
        if k >= d + 2 {
            assert(c[k] == h[k - d - 2]);
            assert(hex_char(h[k - d - 2]));
        }
    }
    lemma_first(c, ':', 0, n, a);
    lemma_untrimmed(c, 0, a);
    // The instruction starts after one tab.
    assert(white(c[a + 1]));
    assert(!white(c[a + 2]));
    assert(trim_start(c, a + 2, n) == a + 2);
    assert(trim_start(c, a + 1, n) == a + 2);
    assert(!white(c[n - 1]));
    assert(trim_end(c, a + 2, n) == n);
    assert(movb_operands(c, a + 2, n) == Some(r));
    lemma_first(c, ',', r, n, comma);
    assert(!white(c[r]) && !white(c[comma - 1]));
    lemma_untrimmed(c, r, comma);
    assert(!white(c[d]));
    lemma_untrimmed(c, d, n);
    assert(all_hex(c, 0, a));
    assert(move_parts(c, 0, n) == Some((0int, a, d, n)));
    lemma_first(c, '(', d, n, open);
    assert(last_char(c, ')', d, n) == Some(n - 1));
    lemma_hex_digits(c, d + 2, h);
    assert(hex_char(h[0]) && c[d + 2] == h[0]);
    assert(number(c, d + 2, open, 16) == Some(hex_text_value(h)));
    assert(displacement(c, d, open) == Some(hex_text_value(h)));
    assert(c.subrange(0, a) =~= addr);
    assert(c.subrange(open + 1, n - 1) =~= base);
}

proof fn lemma_places(addr: Seq<char>, reg: Seq<char>, h: Seq<char>, base: Seq<char>)
    ensures
        ({
            let c = store_line(addr, reg, h, base);
            let a = addr.len() as int;
            let r = a + 7;
            let comma = r + reg.len() as int;
            let d = comma + 1;
            let open = d + 2 + h.len() as int;
            &&& c.len() == open + 1 + base.len() + 1
            &&& c[a] == ':' && c[a + 1] == '\t' && c[a + 2] == 'm' && c[a + 3] == 'o' && c[a + 4] == 'v'
                && c[a + 5] == 'b' && c[a + 6] == '\t'
            &&& c[comma] == ',' && c[d] == '0' && c[d + 1] == 'x'
            &&& c[open] == '('
            &&& c[c.len() - 1] == ')'
            &&& forall|k: int| 0 <= k < a ==> #[trigger] c[k] == addr[k]
            &&& forall|k: int| r <= k < comma ==> #[trigger] c[k] == reg[k - r]
            &&& c.subrange(d + 2, d + 2 + h.len()) == h
            &&& forall|k: int| d + 2 <= k < open ==> #[trigger] c[k] == h[k - d - 2]
            &&& c.subrange(open + 1, c.len() - 1) == base
        }),
{
    let c = store_line(addr, reg, h, base);
    let a = addr.len() as int;
    let r = a + 7;
    let comma = r + reg.len() as int;
    let d = comma + 1;
    let open = d + 2 + h.len() as int;
    let p1 = addr + seq![':', '\t', 'm', 'o', 'v', 'b', '\t'];
    let p2 = p1 + reg;
    let p3 = p2 + seq![',', '0', 'x'];
    let p4 = p3 + h;
    let p5 = p4 + seq!['('];
    let p6 = p5 + base;
    assert(p1.len() == r && p2.len() == comma && p3.len() == d + 2 && p4.len() == open);
    assert(c == p6 + seq![')']);
    assert(c.subrange(d + 2, d + 2 + h.len()) =~= h);
    assert(c.subrange(open + 1, c.len() - 1) =~= base);
}

proof fn lemma_reaches(s: Seq<StoreView>, i: int)
    requires
        0 <= i < s.len(),
    ensures
        i <= run_end(s, i) < s.len(),
        forall|k: int| i <= k < run_end(s, i) ==> goes_on(#[trigger] s[k], s[k + 1]),
        run_end(s, i) + 1 < s.len() ==> !goes_on(s[run_end(s, i)], s[run_end(s, i) + 1]),
    decreases s.len() - i,
{
    if i + 1 < s.len() && goes_on(s[i], s[i + 1]) {
        lemma_reaches(s, i + 1);
    }
}

/// Store `b` follows store `a` as in a copy of every other byte: to the same base, two
/// bytes further up or down, with at most three other lines between them.
pub open spec fn leaves_out_a_byte(a: StoreView, b: StoreView) -> bool {
    &&& a.base == b.base
    &&& b.disp == a.disp + 2 || b.disp == a.disp - 2
    &&& b.line_no <= a.line_no + 4
}

/// Three stores in a row that leave out every other byte are found, wherever they are
/// in a function: some finding has all three.
pub proof fn every_such_run_is_found(s: Seq<StoreView>, from: int, i: int, func: Seq<char>)
    requires
        0 <= from <= i,
        i + 2 < s.len(),
        leaves_out_a_byte(s[i], s[i + 1]),
        leaves_out_a_byte(s[i + 1], s[i + 2]),
    ensures
        exists|k: int, m: int|
            0 <= k < runs(s, from, func).len() && 0 <= m && m + 2 < (#[trigger] runs(
                s,
                from,
                func,
            )[k]).offsets.len() && runs(s, from, func)[k].base == s[i].base && runs(
                s,
                from,
                func,
            )[k].offsets[m] == s[i].disp && #[trigger] runs(s, from, func)[k].offsets[m + 1] == s[i
                + 1].disp && runs(s, from, func)[k].offsets[m + 2] == s[i + 2].disp,
    decreases s.len() - from,
{
    let j = run_end(s, from);
    lemma_reaches(s, from);
    let all = runs(s, from, func);
    assert(goes_on(s[i], s[i + 1]));
    assert(goes_on(s[i + 1], s[i + 2]));
    if j < i {
        every_such_run_is_found(s, j + 1, i, func);
        let rest = runs(s, j + 1, func);
        let (k, m) = choose|k: int, m: int|
            0 <= k < rest.len() && 0 <= m && m + 2 < (#[trigger] rest[k]).offsets.len()
                && rest[k].base == s[i].base && rest[k].offsets[m] == s[i].disp
                && #[trigger] rest[k].offsets[m + 1] == s[i + 1].disp && rest[k].offsets[m + 2] == s[i
                + 2].disp;
        if j - from + 1 >= 3 {
            assert(all[k + 1] == rest[k]);
            assert(all[k + 1].offsets[m + 1] == s[i + 1].disp);
        } else {
            assert(all[k].offsets[m + 1] == s[i + 1].disp);
        }
    } else {
        if j == i {
            assert(!goes_on(s[j], s[j + 1]));
        } else if j == i + 1 {
            assert(!goes_on(s[j], s[j + 1]));
        }
        assert(j >= i + 2);
        let f = finding_of(s, from, j, func);
        lemma_same_base(s, from, i, j);
        assert(all[0] == f);
        assert(f.offsets[i - from] == s[i].disp);
        assert(all[0].offsets[(i - from) + 1] == s[i + 1].disp);
    }
}

proof fn lemma_same_base(s: Seq<StoreView>, from: int, i: int, j: int)
    requires
        0 <= from <= i <= j < s.len(),
        forall|k: int| from <= k < j ==> goes_on(#[trigger] s[k], s[k + 1]),
    ensures
        s[from].base == s[i].base,
    decreases i - from,
{
    if from < i {
        assert(goes_on(s[i - 1], s[i - 1 + 1]));
        lemma_same_base(s, from, i - 1, j);
    }
}

/// Every element that a test table is filled with is odd: one that is lost, and reads
/// as zero, is noticed. Neighbouring regions adjoin, and every test region has its own
/// file.
pub proof fn lost_elements_are_noticed(seed: u32, i: int)
    requires
        0 <= i < 31,
    ensures
        expected_u32(seed, i) & 1 == 1,
        expected_u32(seed, i) != 0,
        name_byte(seed, i) != 0,
        file_vma(seed, i).end == file_vma(seed, i + 1).start,
        file_vma(seed, i).end - file_vma(seed, i).start == 4096,
        file_vma(seed, i).backing is File,
        file_vma(seed, i).backing->shared == (i % 2 == 0),
        int_vma(seed, i).start == i && int_vma(seed, i).end == i + 1,
        int_vma(seed, i).backing is Ints,
        parent_vma(seed, i).backing is File == (i % 2 == 0),
        parent_vma(seed, i).start == i && parent_vma(seed, i).end == i + 1,
        filled_action(seed, i) is Handler == (i % 3 == 0),
        filled_action(seed, i) is Ignore == (i % 3 == 1),
        filled_action(seed, i) is Default == (i % 3 == 2),
        filled_fd(seed, i) is None == (i % 5 == 4),
{
    let x = seed.wrapping_mul(0x9e37_79b9u32).wrapping_add(i as u32);
    assert((x | 1u32) & 1 == 1 && x | 1u32 != 0) by (bit_vector);
    let y = (seed as u8).wrapping_add(i as u8);
    assert(y | 1u8 != 0) by (bit_vector);
}

} // verus!
