//! The plain text of what came over the serial line.

use vstd::prelude::*;
use vstd::string::*;
use vstd::utf8::{encode_utf8, valid_utf8};
use crate::lines::chars_of;

verus! {

/// What `String::from_utf8_lossy` makes of bytes.
pub uninterp spec fn lossy_text(bytes: Seq<u8>) -> Seq<char>;

/// `String::from_utf8_lossy`: the text that the bytes encode; what is not valid
/// UTF-8 in them becomes replacement characters, which ones is left open here.
#[verifier::external_body]
fn decode_lossy(bytes: &[u8]) -> (r: String)
    ensures
        r@ == lossy_text(bytes@),
        valid_utf8(bytes@) ==> encode_utf8(r@) == bytes@,
{
    String::from_utf8_lossy(bytes).into_owned()
}

/// The character that ends a control sequence.
pub open spec fn ends_sequence(c: char) -> bool {
    0x40 <= c as u32 <= 0x7e
}

/// Where the control sequence ends that goes on at `i`.
pub open spec fn sequence_end(c: Seq<char>, i: int) -> int
    decreases c.len() - i,
{
    if i >= c.len() {
        i
    } else if ends_sequence(c[i]) {
        i + 1
    } else {
        sequence_end(c, i + 1)
    }
}

proof fn lemma_sequence_end(c: Seq<char>, i: int)
    requires
        0 <= i <= c.len(),
    ensures
        i <= sequence_end(c, i) <= c.len(),
    decreases c.len() - i,
{
    if i < c.len() && !ends_sequence(c[i]) {
        lemma_sequence_end(c, i + 1);
    }
}

/// The text from `i` on without carriage returns and escapes: after an escape
/// character, `[` and all up to the end of the control sequence, or else one
/// character.
pub open spec fn stripped(c: Seq<char>, i: int) -> Seq<char>
    decreases c.len() - i,
{
    if i < 0 || i >= c.len() {
        Seq::empty()
    } else if c[i] == '\u{1b}' {
        if i + 1 < c.len() && c[i + 1] == '[' {
            let e = sequence_end(c, i + 2);
            if i + 2 <= e <= c.len() {
                stripped(c, e)
            } else {
                Seq::empty()
            }
        } else if i + 2 <= c.len() {
            stripped(c, i + 2)
        } else {
            Seq::empty()
        }
    } else if c[i] == '\r' {
        stripped(c, i + 1)
    } else {
        seq![c[i]] + stripped(c, i + 1)
    }
}

/// `text` without carriage returns and escapes.
pub fn strip_escapes(text: &str) -> (r: String)
    ensures
        r@ == stripped(text@, 0),
{
    let chars = chars_of(text);
    let n: usize = chars.len();
    let mut out = String::new();
    let mut i: usize = 0;
    assert(out@ + stripped(text@, 0) =~= stripped(text@, 0));
    while i < n
        invariant
            n == chars@.len(),
            chars@ == text@,
            i <= n,
            out@ + stripped(text@, i as int) == stripped(text@, 0),
        decreases n - i,
    {
        let c: char = chars[i];
        if c == '\u{1b}' {
            if i + 1 < n && chars[i + 1] == '[' {
                proof {
                    lemma_sequence_end(text@, i + 2);
                }
                let mut e: usize = i + 2;
                let mut over = false;
                while e < n && !over
                    invariant
                        n == chars@.len(),
                        chars@ == text@,
                        i + 2 <= e <= n,
                        over ==> sequence_end(text@, i + 2) == e,
                        !over ==> sequence_end(text@, i + 2) == sequence_end(text@, e as int),
                    decreases n - e,
                {
                    let v: u32 = chars[e] as u32;
                    over = 0x40 <= v && v <= 0x7e;
                    e += 1;
                }
                i = e;
            } else if n - i >= 2 {
                i = i + 2;
            } else {
                assert(out@ + stripped(text@, i as int) =~= out@);
                assert(stripped(text@, n as int) =~= Seq::<char>::empty());
                i = n;
            }
        } else if c == '\r' {
            i += 1;
        } else {
            let ghost before = out@;
            let ghost left = stripped(text@, i as int);
            out.append(text.substring_char(i, i + 1));
            i += 1;
            assert(before + left =~= out@ + stripped(text@, i as int));
        }
    }
    assert(out@ + stripped(text@, i as int) =~= out@);
    out
}

/// The plain text of the bytes that came over the serial line.
pub fn strip_serial_noise(raw: &[u8]) -> (r: String)
    ensures
        r@ == stripped(lossy_text(raw@), 0),
        valid_utf8(raw@) ==> encode_utf8(lossy_text(raw@)) == raw@,
{
    let text = decode_lossy(raw);
    strip_escapes(text.as_str())
}

/// Text without carriage returns and escape characters stays as it is.
pub proof fn plain_text_is_kept(c: Seq<char>, i: int)
    requires
        0 <= i <= c.len(),
        forall|k: int| 0 <= k < c.len() ==> #[trigger] c[k] != '\u{1b}' && c[k] != '\r',
    ensures
        stripped(c, i) == c.subrange(i, c.len() as int),
    decreases c.len() - i,
{
    if i < c.len() {
        plain_text_is_kept(c, i + 1);
        assert(c[i] != '\u{1b}');
        assert(seq![c[i]] + c.subrange(i + 1, c.len() as int) =~= c.subrange(i, c.len() as int));
    } else {
        assert(c.subrange(i, c.len() as int) =~= Seq::<char>::empty());
    }
}

} // verus!
