//! What the tools make, seen by those who use it: the archive, the keys and the log.

use vstd::prelude::*;
use super::cpio::{header, initrd, member_records, nuls, padding, record, upper_digit, upper_hex, Member};
use super::expected::{expected_at, first_at, occurs};
use super::keys::{key_name, key_names, untypable};
use super::serial::{sequence_end, stripped};

verus! {

/// What a digit of a header field stands for.
pub open spec fn upper_value(c: u8) -> Option<int> {
    if 0x30 <= c <= 0x39 {
        Some(c - 0x30)
    } else if 0x41 <= c <= 0x46 {
        Some(c - 0x41 + 10)
    } else {
        None
    }
}

/// The number in the `n` hexadecimal digits at `at`.
pub open spec fn field_value(s: Seq<u8>, at: int, n: nat) -> Option<int>
    decreases n,
{
    if n == 0 {
        Some(0)
    } else {
        match (field_value(s, at, (n - 1) as nat), upper_value(s[at + n - 1])) {
            (Some(v), Some(d)) => Some(v * 16 + d),
            _ => None,
        }
    }
}

/// `n` rounded up to a multiple of four.
pub open spec fn round4(n: int) -> int {
    (n + 3) / 4 * 4
}

proof fn lemma_field(n: nat, width: nat)
    ensures
        upper_hex(n, width).len() == width,
        n < pow16(width) ==> field_value(upper_hex(n, width), 0, width) == Some(n as int),
    decreases width,
{
    if width > 0 {
        lemma_field(n / 16, (width - 1) as nat);
        let s = upper_hex(n, width);
        let rest = upper_hex(n / 16, (width - 1) as nat);
        lemma_same_field(s, 0, rest, 0, (width - 1) as nat);
        assert(s[width - 1] == upper_digit(n % 16));
        assert(n / 16 < pow16((width - 1) as nat) || n >= pow16(width)) by {
            assert(pow16(width) == 16 * pow16((width - 1) as nat));
        }
    }
}

spec fn pow16(n: nat) -> nat
    decreases n,
{
    if n == 0 {
        1
    } else {
        16 * pow16((n - 1) as nat)
    }
}

proof fn lemma_same_field(a: Seq<u8>, i: int, b: Seq<u8>, j: int, n: nat)
    requires
        forall|k: int| 0 <= k < n ==> #[trigger] a[i + k] == b[j + k],
    ensures
        field_value(a, i, n) == field_value(b, j, n),
    decreases n,
{
    if n > 0 {
        lemma_same_field(a, i, b, j, (n - 1) as nat);
        assert(a[i + (n - 1)] == b[j + (n - 1)]);
    }
}

/// Field `k` of a header, of eight digits each after the first six bytes.
proof fn lemma_header_field(h: Seq<u8>, at: int, v: nat)
    requires
        0 <= at,
        at + 8 <= h.len(),
        v < 0x1_0000_0000,
        h.subrange(at, at + 8) == upper_hex(v, 8),
    ensures
        field_value(h, at, 8) == Some(v as int),
{
    lemma_field(v, 8);
    reveal_with_fuel(pow16, 9);
    assert forall|k: int| 0 <= k < 8 implies #[trigger] h[at + k] == upper_hex(v, 8)[0 + k] by {
        assert(h.subrange(at, at + 8)[k] == h[at + k]);
    }
    lemma_same_field(h, at, upper_hex(v, 8), 0, 8);
}

/// A member of the archive unpacks to what was packed: its header says "070701", the
/// mode, one link, the size and the length of the name with the byte that ends it;
/// the name follows, and, from the next multiple of four on, the data. The record ends
/// on a multiple of four.
pub proof fn packed_member_unpacks(name: Seq<u8>, mode: u32, data: Seq<u8>, i: int)
    requires
        name.len() < 0xffff_ffff,
        data.len() <= 0xffff_ffff,
    ensures
        ({
            let r = record(name, mode, data);
            let at = round4(110 + name.len() as int + 1);
            &&& r[0] == 0x30 && r[1] == 0x37 && r[2] == 0x30 && r[3] == 0x37 && r[4] == 0x30 && r[5]
                == 0x31
            &&& field_value(r, 14, 8) == Some(mode as int)
            &&& field_value(r, 38, 8) == Some(1int)
            &&& field_value(r, 54, 8) == Some(data.len() as int)
            &&& field_value(r, 94, 8) == Some(name.len() as int + 1)
            &&& 0 <= i < name.len() ==> r[110 + i] == name[i]
            &&& r[110 + name.len() as int] == 0
            &&& 0 <= i < data.len() ==> r[at + i] == data[i]
            &&& r.len() == round4(at + data.len() as int)
        }),
{
    let n = name.len() as int;
    let r = record(name, mode, data);
    lemma_header(n, mode, data.len() as u32);
    let h = header(n, mode, data.len() as u32);
    lemma_record(name, mode, data);
    assert(r.subrange(14, 22) =~= h.subrange(14, 22));
    lemma_header_field(r, 14, mode as nat);
    assert(r.subrange(38, 46) =~= h.subrange(38, 46));
    lemma_header_field(r, 38, 1);
    assert(r.subrange(54, 62) =~= h.subrange(54, 62));
    lemma_header_field(r, 54, data.len() as u32 as nat);
    assert(r.subrange(94, 102) =~= h.subrange(94, 102));
    lemma_header_field(r, 94, (n + 1) as nat);
}

proof fn lemma_header(n: int, mode: u32, size: u32)
    requires
        0 <= n < 0xffff_ffff,
    ensures
        ({
            let h = header(n, mode, size);
            &&& h.len() == 110
            &&& h[0] == 0x30 && h[1] == 0x37 && h[2] == 0x30 && h[3] == 0x37 && h[4] == 0x30 && h[5]
                == 0x31
            &&& h.subrange(14, 22) == upper_hex(mode as nat, 8)
            &&& h.subrange(38, 46) == upper_hex(1, 8)
            &&& h.subrange(54, 62) == upper_hex(size as nat, 8)
            &&& h.subrange(94, 102) == upper_hex((n + 1) as nat, 8)
        }),
{
    lemma_field(0, 8);
    lemma_field(mode as nat, 8);
    lemma_field(1, 8);
    lemma_field(size as nat, 8);
    lemma_field((n + 1) as nat, 8);
    let a = upper_hex(mode as nat, 8);
    let b = upper_hex(1, 8);
    let c = upper_hex(size as nat, 8);
    let d = upper_hex((n + 1) as nat, 8);
    let z = upper_hex(0, 8);
    let m = seq![0x30u8, 0x37, 0x30, 0x37, 0x30, 0x31];
    let h = header(n, mode, size);
    assert(h == m + z + a + z + z + b + z + c + z + z + z + z + d + z);
    lemma_fields(m, z, a, b, c, d);
}

proof fn lemma_fields(m: Seq<u8>, z: Seq<u8>, a: Seq<u8>, b: Seq<u8>, c: Seq<u8>, d: Seq<u8>)
    requires
        m.len() == 6,
        z.len() == 8,
        a.len() == 8,
        b.len() == 8,
        c.len() == 8,
        d.len() == 8,
    ensures
        ({
            let h = m + z + a + z + z + b + z + c + z + z + z + z + d + z;
            &&& h.len() == 110
            &&& forall|i: int| 0 <= i < 6 ==> #[trigger] h[i] == m[i]
            &&& h.subrange(14, 22) == a
            &&& h.subrange(38, 46) == b
            &&& h.subrange(54, 62) == c
            &&& h.subrange(94, 102) == d
        }),
{
    let h = m + z + a + z + z + b + z + c + z + z + z + z + d + z;
    assert(h.subrange(14, 22) =~= a);
    assert(h.subrange(38, 46) =~= b);
    assert(h.subrange(54, 62) =~= c);
    assert(h.subrange(94, 102) =~= d);
}

proof fn lemma_record(name: Seq<u8>, mode: u32, data: Seq<u8>)
    requires
        header(name.len() as int, mode, data.len() as u32).len() == 110,
    ensures
        ({
            let h = header(name.len() as int, mode, data.len() as u32);
            let r = record(name, mode, data);
            let n = name.len() as int;
            let at = round4(111 + n);
            &&& forall|k: int| 0 <= k < 110 ==> #[trigger] r[k] == h[k]
            &&& forall|k: int| 0 <= k < n ==> #[trigger] r[110 + k] == name[k]
            &&& r[110 + n] == 0
            &&& forall|k: int| 0 <= k < data.len() ==> #[trigger] r[at + k] == data[k]
            &&& r.len() == round4(at + data.len() as int)
        }),
{
    let h = header(name.len() as int, mode, data.len() as u32);
    lemma_joined(h, name, data);
}

proof fn lemma_joined(h: Seq<u8>, name: Seq<u8>, data: Seq<u8>)
    requires
        h.len() == 110,
    ensures
        ({
            let n = name.len() as int;
            let r = h + name.push(0) + nuls(padding(111 + n)) + data + nuls(padding(data.len() as int));
            let at = round4(111 + n);
            &&& forall|k: int| 0 <= k < 110 ==> #[trigger] r[k] == h[k]
            &&& forall|k: int| 0 <= k < n ==> #[trigger] r[110 + k] == name[k]
            &&& r[110 + n] == 0
            &&& forall|k: int| 0 <= k < data.len() ==> #[trigger] r[at + k] == data[k]
            &&& r.len() == round4(at + data.len() as int)
        }),
{
    let n = name.len() as int;
    let d = data.len() as int;
    let p = nuls(padding(111 + n));
    assert(p.len() == padding(111 + n));
    assert(nuls(padding(d)).len() == padding(d));
    assert(111 + n + padding(111 + n) == round4(111 + n));
    assert(round4(111 + n) + d + padding(d) == round4(round4(111 + n) + d));
    let a = h + name.push(0);
    let b = a + p;
    assert(b.len() == round4(111 + n));
    assert forall|k: int| 0 <= k < n implies #[trigger] a[110 + k] == name[k] by {}
}

/// The archive holds two directories, then the members in order, then the record that
/// ends it.
pub proof fn archive_holds_its_members(m: Seq<Member>, k: int)
    requires
        0 <= k < m.len(),
    ensures
        ({
            let a = initrd(m);
            let tmp = record(seq![0x74u8, 0x6d, 0x70], 0o040755, Seq::empty());
            let bin = record(seq![0x62u8, 0x69, 0x6e], 0o040755, Seq::empty());
            let end = record(
                seq![0x54u8, 0x52, 0x41, 0x49, 0x4c, 0x45, 0x52, 0x21, 0x21, 0x21],
                0,
                Seq::empty(),
            );
            let it = record(m[k].name@, m[k].mode, m[k].data@);
            let at = tmp.len() + bin.len() + member_records(m, k as nat).len();
            &&& a.subrange(0, tmp.len() as int) == tmp
            &&& a.subrange(tmp.len() as int, (tmp.len() + bin.len()) as int) == bin
            &&& at + it.len() <= a.len()
            &&& a.subrange(at as int, (at + it.len()) as int) == it
            &&& a.subrange(a.len() - end.len(), a.len() as int) == end
            &&& a.len() == tmp.len() + bin.len() + member_records(m, m.len()).len() + end.len()
        }),
{
    let a = initrd(m);
    let tmp = record(seq![0x74u8, 0x6d, 0x70], 0o040755, Seq::empty());
    let bin = record(seq![0x62u8, 0x69, 0x6e], 0o040755, Seq::empty());
    let end = record(
        seq![0x54u8, 0x52, 0x41, 0x49, 0x4c, 0x45, 0x52, 0x21, 0x21, 0x21],
        0,
        Seq::empty(),
    );
    let it = record(m[k].name@, m[k].mode, m[k].data@);
    let all = member_records(m, m.len());
    lemma_member(m, k, m.len());
    assert(a == tmp + bin + all + end);
    let at = (tmp.len() + bin.len() + member_records(m, k as nat).len()) as int;
    let from = member_records(m, k as nat).len() as int;
    assert(a.subrange(0, tmp.len() as int) =~= tmp);
    assert(a.subrange(tmp.len() as int, (tmp.len() + bin.len()) as int) =~= bin);
    assert(a.subrange(at, at + it.len()) =~= all.subrange(from, from + it.len()));
    assert(a.subrange(a.len() - end.len(), a.len() as int) =~= end);
}

proof fn lemma_member(m: Seq<Member>, k: int, n: nat)
    requires
        0 <= k < n <= m.len(),
    ensures
        ({
            let it = record(m[k].name@, m[k].mode, m[k].data@);
            let from = member_records(m, k as nat).len() as int;
            let all = member_records(m, n);
            from + it.len() <= all.len() && all.subrange(from, from + it.len()) == it
        }),
    decreases n,
{
    let it = record(m[k].name@, m[k].mode, m[k].data@);
    let from = member_records(m, k as nat).len() as int;
    let all = member_records(m, n);
    let before = member_records(m, (n - 1) as nat);
    if k < n - 1 {
        lemma_member(m, k, (n - 1) as nat);
        assert(all.subrange(from, from + it.len()) =~= before.subrange(from, from + it.len()));
    } else {
        assert(all.subrange(from, from + it.len()) =~= it);
    }
}

/// The character that pressing a key types.
pub open spec fn key_types(k: Seq<char>) -> Option<char> {
    if k == seq!['s', 'p', 'c'] {
        Some(' ')
    } else if k == seq!['s', 'l', 'a', 's', 'h'] {
        Some('/')
    } else if k == seq!['m', 'i', 'n', 'u', 's'] {
        Some('-')
    } else if k == seq!['d', 'o', 't'] {
        Some('.')
    } else if k.len() == 1 {
        Some(k[0])
    } else {
        None
    }
}

/// A key that stands for a character types this character. Small letters, digits, the
/// blank, the slash, the minus and the dot have one.
pub proof fn keys_type_their_characters(c: char)
    ensures
        key_name(c) matches Some(k) ==> key_types(k) == Some(c),
        key_name(c) is Some == ('a' <= c <= 'z' || '0' <= c <= '9' || c == ' ' || c == '/' || c == '-'
            || c == '.'),
{
    reveal_strlit("spc");
    reveal_strlit("slash");
    reveal_strlit("minus");
    reveal_strlit("dot");
    assert("spc"@ =~= seq!['s', 'p', 'c']);
    assert("slash"@ =~= seq!['s', 'l', 'a', 's', 'h']);
    assert("minus"@ =~= seq!['m', 'i', 'n', 'u', 's']);
    assert("dot"@ =~= seq!['d', 'o', 't']);
    assert("spc"@.len() == 3 && "slash"@.len() == 5 && "minus"@.len() == 5 && "dot"@.len() == 3);
    assert("slash"@[0] != "minus"@[0]);
    assert("spc"@[0] != "dot"@[0]);
    if 'a' <= c <= 'z' || '0' <= c <= '9' {
        assert(seq![c].len() == 1);
    }
}

/// Every character of a text either is typed, in order, or is reported as one that
/// cannot be.
pub proof fn every_character_is_typed_or_reported(c: Seq<char>, n: nat)
    requires
        n <= c.len(),
    ensures
        key_names(c, n).len() + untypable(c, n).len() == n,
        untypable(c, n).len() == 0 ==> key_names(c, n).len() == n && forall|i: int|
            0 <= i < n ==> key_types(#[trigger] key_names(c, n)[i]) == Some(c[i]),
    decreases n,
{
    if n > 0 {
        every_character_is_typed_or_reported(c, (n - 1) as nat);
        keys_type_their_characters(c[n - 1]);
    }
}

/// A text is found at the first place where it stands.
pub proof fn text_is_found_where_it_first_stands(log: Seq<u8>, text: Seq<u8>, from: int)
    requires
        0 <= from,
    ensures
        match first_at(log, text, from) {
            Some(p) => from <= p && p + text.len() <= log.len() && log.subrange(p, p + text.len())
                == text && forall|q: int| from <= q < p ==> !#[trigger] occurs(log, text, q),
            None => forall|q: int| from <= q ==> !#[trigger] occurs(log, text, q),
        },
    decreases log.len() - from + 1,
{
    if from + text.len() <= log.len() && !occurs(log, text, from) {
        text_is_found_where_it_first_stands(log, text, from + 1);
        assert forall|q: int| from <= q && (first_at(log, text, from) is None || q < first_at(
            log,
            text,
            from,
        )->Some_0) implies !#[trigger] occurs(log, text, q) by {
            if q > from {
                assert(from + 1 <= q);
            }
        }
    }
}

/// What is shown of the serial line holds no escape character and no carriage return.
pub proof fn shown_text_has_no_escapes(c: Seq<char>, i: int, k: int)
    requires
        0 <= i,
    ensures
        0 <= k < stripped(c, i).len() ==> stripped(c, i)[k] != '\u{1b}' && stripped(c, i)[k] != '\r',
    decreases c.len() - i,
{
    if i < c.len() {
        if c[i] == '\u{1b}' {
            if i + 1 < c.len() && c[i + 1] == '[' {
                let e = sequence_end(c, i + 2);
                if i + 2 <= e <= c.len() {
                    shown_text_has_no_escapes(c, e, k);
                }
            } else if i + 2 <= c.len() {
                shown_text_has_no_escapes(c, i + 2, k);
            }
        } else if c[i] == '\r' {
            shown_text_has_no_escapes(c, i + 1, k);
        } else {
            if k > 0 {
                shown_text_has_no_escapes(c, i + 1, k - 1);
            }
        }
    }
}

proof fn lemma_sequence_ends(c: Seq<char>, i: int, e: int)
    requires
        0 <= i <= e < c.len(),
        forall|k: int| i <= k < e ==> !(0x40 <= #[trigger] c[k] as u32 <= 0x7e),
        0x40 <= c[e] as u32 <= 0x7e,
    ensures
        sequence_end(c, i) == e + 1,
    decreases e - i,
{
    if i < e {
        assert(!(0x40 <= c[i] as u32 <= 0x7e));
        lemma_sequence_ends(c, i + 1, e);
    }
}

/// A control sequence, from its escape character to the letter that ends it, is left
/// out, and what follows it is shown.
pub proof fn control_sequences_are_left_out(c: Seq<char>, i: int, e: int)
    requires
        0 <= i,
        i + 2 <= e < c.len(),
        c[i] == '\u{1b}',
        c[i + 1] == '[',
        forall|k: int| i + 2 <= k < e ==> !(0x40 <= #[trigger] c[k] as u32 <= 0x7e),
        0x40 <= c[e] as u32 <= 0x7e,
    ensures
        stripped(c, i) == stripped(c, e + 1),
{
    lemma_sequence_ends(c, i + 2, e);
}

/// A line of expectations that starts with `#` asks for nothing; one that starts with
/// `~` asks for the rest of it anywhere; any other asks for itself in its place.
pub proof fn expectations_are_read(c: Seq<char>, lo: int, hi: int, a: int)
    requires
        0 <= lo <= a < hi <= c.len(),
        forall|k: int| lo <= k < a ==> #[trigger] crate::lines::white(c[k]),
        !crate::lines::white(c[a]),
        !crate::lines::white(c[hi - 1]),
    ensures
        c[a] == '#' ==> expected_at(c, lo, hi) is None,
        c[a] == '~' ==> (expected_at(c, lo, hi) matches Some(e) && e.unordered),
        c[a] != '#' && c[a] != '~' ==> (expected_at(c, lo, hi) matches Some(e) && !e.unordered
            && e.text == c.subrange(a, hi)),
{
    crate::numbers::trimming_takes_only_blanks(c, lo, hi);
    let s = crate::lines::trim_start(c, lo, hi);
    if s < a {
        assert(crate::lines::white(c[s]));
    } else if a < s {
        assert(crate::lines::white(c[a]));
    }
    assert(crate::lines::trim_end(c, a, hi) == hi);
}

} // verus!
