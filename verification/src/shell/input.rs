//! Typing a line. What is typed is echoed, and a backspace takes the last byte
//! away. The line ends at a newline, which is not part of it, or when it is full.

use vstd::prelude::*;

verus! {

/// Bytes of the longest line.
pub const LINE_BUF_SIZE: usize = 256;

/// What to send back for a typed byte.
#[derive(Clone, Copy, Debug, PartialEq, Eq, Structural)]
pub enum Echo {
    Nothing,
    Newline,
    /// Back, a space over the last byte, and back again.
    Rubout,
    Byte(u8),
    Bell,
}

impl Echo {
    /// The bytes to send.
    pub open spec fn sent(&self) -> Seq<u8> {
        match *self {
            Echo::Nothing => Seq::empty(),
            Echo::Newline => seq![10u8],
            Echo::Rubout => seq![8u8, 32, 8],
            Echo::Byte(c) => seq![c],
            Echo::Bell => seq![7u8],
        }
    }

    pub fn bytes(&self) -> (r: Vec<u8>)
        ensures
            r@ == self.sent(),
    {
        let mut out: Vec<u8> = Vec::new();
        match self {
            Echo::Nothing => {},
            Echo::Newline => {
                out.push(10);
            },
            Echo::Rubout => {
                out.push(8);
                out.push(32);
                out.push(8);
            },
            Echo::Byte(c) => {
                out.push(*c);
            },
            Echo::Bell => {
                out.push(7);
            },
        }
        assert(out@ =~= self.sent());
        out
    }
}

/// The line after byte `c` has been typed, what is echoed, and whether the line
/// is complete.
pub open spec fn typed(line: Seq<u8>, c: u8) -> (Seq<u8>, Echo, bool) {
    if c == 13 || c == 10 {
        (line, Echo::Newline, true)
    } else if c == 8 || c == 127 {
        if line.len() > 0 {
            (line.drop_last(), Echo::Rubout, false)
        } else {
            (line, Echo::Nothing, false)
        }
    } else if line.len() < 256 {
        (line.push(c), Echo::Byte(c), line.len() + 1 == 256)
    } else {
        (line, Echo::Bell, true)
    }
}

/// The line after the bytes of `keys` have been typed one by one into an empty
/// line, and how many of them it took: reading stops where the line is complete.
pub open spec fn typed_line(keys: Seq<u8>) -> (Seq<u8>, nat, bool)
    decreases keys.len(),
{
    if keys.len() == 0 {
        (Seq::empty(), 0, false)
    } else {
        let (line, taken, ended) = typed_line(keys.drop_last());
        if ended {
            (line, taken, true)
        } else {
            let (next, _, done) = typed(line, keys.last());
            (next, taken + 1, done)
        }
    }
}

/// Take byte `c` that was typed into the line in the first `len` bytes of
/// `buf`: what to echo, and whether the line is complete.
pub fn read_line(buf: &mut [u8; LINE_BUF_SIZE], len: &mut usize, c: u8) -> (r: (Echo, bool))
    requires
        *old(len) <= LINE_BUF_SIZE,
    ensures
        *final(len) <= LINE_BUF_SIZE,
        (final(buf)@.take(*final(len) as int), r.0, r.1) == typed(
            old(buf)@.take(*old(len) as int),
            c,
        ),
        final(buf)@ == (if ordinary(c) && *old(len) < 256 {
            old(buf)@.update(*old(len) as int, c)
        } else {
            old(buf)@
        }),
{
    let n: usize = *len;
    let ghost line = buf@.take(n as int);
    if c == 13 || c == 10 {
        return (Echo::Newline, true);
    }
    if c == 8 || c == 127 {
        if n > 0 {
            *len = n - 1;
            assert(buf@.take(n - 1) =~= line.drop_last());
            return (Echo::Rubout, false);
        }
        return (Echo::Nothing, false);
    }
    if n < LINE_BUF_SIZE {
        buf[n] = c;
        *len = n + 1;
        assert(buf@.take(n + 1) =~= line.push(c));
        (Echo::Byte(c), n + 1 == LINE_BUF_SIZE)
    } else {
        (Echo::Bell, true)
    }
}

/// A backspace takes back what was typed last.
pub proof fn backspace_takes_back(line: Seq<u8>, c: u8, back: u8)
    requires
        line.len() < 256,
        ordinary(c),
        back == 8 || back == 127,
    ensures
        typed(typed(line, c).0, back).0 == line,
{
    assert(line.push(c).drop_last() =~= line);
}

/// A byte that stands for itself.
pub open spec fn ordinary(c: u8) -> bool {
    c != 13 && c != 10 && c != 8 && c != 127
}

/// A line is complete after a newline, or when it is full, and at no other time.
pub proof fn line_ends_at_newline_or_full(line: Seq<u8>, c: u8)
    requires
        line.len() <= 256,
    ensures
        typed(line, c).2 <==> c == 13 || c == 10 || typed(line, c).0.len() == 256,
{
}

/// Ordinary bytes are the line that they make, and as many as fit complete it:
/// what is typed after them is not taken.
pub proof fn full_line_is_what_was_typed(keys: Seq<u8>)
    requires
        forall|i: int| 0 <= i < keys.len() && i < 256 ==> ordinary(#[trigger] keys[i]),
    ensures
        keys.len() < 256 ==> typed_line(keys) == (keys, keys.len(), false),
        keys.len() >= 256 ==> typed_line(keys) == (keys.take(256), 256nat, true),
    decreases keys.len(),
{
    if keys.len() > 0 {
        let rest = keys.drop_last();
        full_line_is_what_was_typed(rest);
        if rest.len() < 256 {
            assert(rest.push(keys.last()) =~= keys);
            assert(keys.len() == 256 ==> keys.take(256) =~= keys);
        } else {
            assert(rest.take(256) =~= keys.take(256));
        }
    }
}

/// Ordinary bytes up to a newline are the line, without the newline.
pub proof fn newline_is_not_stored(keys: Seq<u8>, nl: u8)
    requires
        keys.len() < 256,
        nl == 13 || nl == 10,
        forall|i: int| 0 <= i < keys.len() ==> ordinary(#[trigger] keys[i]),
    ensures
        typed_line(keys.push(nl)) == (keys, keys.len() + 1, true),
{
    full_line_is_what_was_typed(keys);
    assert(keys.push(nl).drop_last() =~= keys);
}

} // verus!
