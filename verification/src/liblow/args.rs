//! The arguments of a program, as they lie on the stack it starts with: their
//! number, a pointer to each, and a null pointer.

use vstd::prelude::*;
use vstd::utf8::valid_utf8;
use crate::bytes::{le_u64, read_u64};
use crate::proc::exec::{initial_rsp, stack_built, stack_word, string_addr};
use crate::proc::usermem::{as_text, contents, text_of};
use super::exec::MAX_ARG_LEN;

verus! {

/// Most arguments that a program gets to see.
pub const MAX_ARGC: usize = 16;

/// The arguments of a program, the name it was called by first.
pub struct Args {
    pub argv: Vec<Vec<u8>>,
}

impl Args {
    pub fn all(&self) -> (r: &[Vec<u8>])
        ensures
            r@ == self.argv@,
    {
        self.argv.as_slice()
    }

    /// What follows the name.
    pub fn rest(&self) -> (r: &[Vec<u8>])
        ensures
            r@ == (if self.argv@.len() == 0 {
                self.argv@
            } else {
                self.argv@.skip(1)
            }),
    {
        if self.argv.len() == 0 {
            self.argv.as_slice()
        } else {
            vstd::slice::slice_subrange(self.argv.as_slice(), 1, self.argv.len())
        }
    }

    pub fn len(&self) -> (r: usize)
        ensures
            r == self.argv@.len(),
    {
        self.argv.len()
    }

    pub fn is_empty(&self) -> (r: bool)
        ensures
            r == (self.argv@.len() == 0),
    {
        self.argv.len() == 0
    }
}

/// Word `i` of the stack `w`; beyond its end there are zeroes.
pub open spec fn word_at(w: Seq<u8>, i: int) -> u64 {
    if 8 * i + 8 <= w.len() {
        le_u64(w, 8 * i)
    } else {
        0
    }
}

/// The byte at address `p`, of a stack `w` that starts at address `base`.
pub open spec fn stack_byte(w: Seq<u8>, base: int, p: int) -> u8 {
    if base <= p < base + w.len() {
        w[p - base]
    } else {
        0
    }
}

/// The bytes at `p` before the first NUL, at most `left` of them.
pub open spec fn c_string(w: Seq<u8>, base: int, p: int, left: nat) -> Seq<u8>
    decreases left,
{
    if left == 0 || stack_byte(w, base, p) == 0 {
        Seq::empty()
    } else {
        seq![stack_byte(w, base, p)] + c_string(w, base, p + 1, (left - 1) as nat)
    }
}

/// Arguments `i` up to `n`; a null pointer ends them.
pub open spec fn args_at(w: Seq<u8>, base: int, i: int, n: int) -> Seq<Seq<u8>>
    decreases n - i,
{
    if i >= n || word_at(w, 1 + i) == 0 {
        Seq::empty()
    } else {
        seq![as_text(c_string(w, base, word_at(w, 1 + i) as int, 128))] + args_at(w, base, i + 1, n)
    }
}

/// The arguments on the stack `w` that starts at address `base`; there are none
/// on no stack.
pub open spec fn stack_args(w: Seq<u8>, base: u64) -> Seq<Seq<u8>> {
    let argc = word_at(w, 0) as int;
    if base == 0 {
        Seq::empty()
    } else {
        args_at(
            w,
            base as int,
            0,
            if argc > 16 {
                16
            } else {
                argc
            },
        )
    }
}

fn stack_word_at(w: &[u8], i: usize) -> (r: u64)
    requires
        i <= 17,
    ensures
        r == word_at(w@, i as int),
{
    if 8 * i + 8 <= w.len() {
        read_u64(w, 8 * i)
    } else {
        0
    }
}

fn cstr_at(w: &[u8], base: u64, p: u64) -> (r: Vec<u8>)
    ensures
        r@ == c_string(w@, base as int, p as int, 128),
{
    let mut out: Vec<u8> = Vec::new();
    let mut n: usize = 0;
    assert(out@ + c_string(w@, base as int, p as int, 128) =~= c_string(
        w@,
        base as int,
        p as int,
        128,
    ));
    while n < MAX_ARG_LEN
        invariant_except_break
            n <= 128,
            out@ + c_string(w@, base as int, p + n, (128 - n) as nat) == c_string(
                w@,
                base as int,
                p as int,
                128,
            ),
        ensures
            out@ == c_string(w@, base as int, p as int, 128),
        decreases 128 - n,
    {
        let mut b: u8 = 0;
        assert(w@.len() == w.len());
        let len: u64 = w.len() as u64;
        if p >= base {
            if p - base < len && (n as u64) < len - (p - base) {
                b = w[(p - base) as usize + n];
            }
        } else if n as u64 >= base - p {
            if n as u64 - (base - p) < len {
                b = w[n - (base - p) as usize];
            }
        }
        assert(b == stack_byte(w@, base as int, p + n));
        let ghost left = c_string(w@, base as int, p + n, (128 - n) as nat);
        if b == 0 {
            assert(out@ + left =~= out@);
            break;
        }
        let ghost before = out@;
        out.push(b);
        n += 1;
        assert(before + left =~= out@ + c_string(w@, base as int, p + n, (128 - n) as nat));
        if n == 128 {
            assert(out@ + c_string(w@, base as int, p + n, 0) =~= out@);
        }
    }
    out
}

/// The arguments on the stack `w` that a program was started with, at address
/// `base`. One that is not valid UTF-8 becomes empty.
pub fn args_from_stack(w: &[u8], base: u64) -> (r: Args)
    ensures
        contents(r.argv@) == stack_args(w@, base),
{
    let mut argv: Vec<Vec<u8>> = Vec::new();
    assert(contents(argv@) =~= Seq::<Seq<u8>>::empty());
    if base == 0 {
        return Args { argv };
    }
    let argc: u64 = stack_word_at(w, 0);
    let n: usize = if argc > MAX_ARGC as u64 {
        MAX_ARGC
    } else {
        argc as usize
    };
    let mut i: usize = 0;
    assert(contents(argv@) + stack_args(w@, base) =~= stack_args(w@, base));
    while i < n
        invariant_except_break
            i <= n <= 16,
            contents(argv@) + args_at(w@, base as int, i as int, n as int) == stack_args(w@, base),
        ensures
            contents(argv@) == stack_args(w@, base),
        decreases n - i,
    {
        let p: u64 = stack_word_at(w, 1 + i);
        let ghost left = args_at(w@, base as int, i as int, n as int);
        if p == 0 {
            assert(contents(argv@) + left =~= contents(argv@));
            break;
        }
        let mut s = cstr_at(w, base, p);
        if text_of(s.as_slice()).is_none() {
            s = Vec::new();
            assert(s@ =~= Seq::<u8>::empty());
        }
        let ghost before = argv@;
        argv.push(s);
        assert(contents(argv@) =~= contents(before).push(s@));
        i += 1;
        assert(contents(before) + left =~= contents(argv@) + args_at(
            w@,
            base as int,
            i as int,
            n as int,
        ));
        if i == n {
            assert(contents(argv@) + args_at(w@, base as int, i as int, n as int) =~= contents(
                argv@,
            ));
        }
    }
    if n == 0 {
        assert(stack_args(w@, base) =~= Seq::<Seq<u8>>::empty());
    }
    Args { argv }
}

/// A string of at most 128 bytes, none of them NUL, that lies at `p` with a NUL
/// behind it is read as it is.
proof fn lemma_c_string(w: Seq<u8>, base: int, p: int, s: Seq<u8>, left: nat)
    requires
        s.len() <= left,
        0 <= p - base,
        p - base + s.len() < w.len(),
        w.subrange(p - base, p - base + s.len()) == s,
        w[p - base + s.len()] == 0,
        forall|i: int| 0 <= i < s.len() ==> #[trigger] s[i] != 0,
    ensures
        c_string(w, base, p, left) == s,
    decreases s.len(),
{
    if s.len() == 0 {
        assert(s =~= Seq::<u8>::empty());
    } else {
        let rest = s.skip(1);
        assert(w.subrange(p - base, p - base + s.len())[0] == s[0]);
        assert(w.subrange(p + 1 - base, p + 1 - base + rest.len()) =~= rest) by {
            assert forall|i: int| 0 <= i < rest.len() implies #[trigger] w.subrange(
                p + 1 - base,
                p + 1 - base + rest.len(),
            )[i] == rest[i] by {
                assert(w.subrange(p - base, p - base + s.len())[i + 1] == s[i + 1]);
            }
        }
        assert forall|i: int| 0 <= i < rest.len() implies #[trigger] rest[i] != 0 by {
            assert(s[i + 1] != 0);
        }
        lemma_c_string(w, base, p + 1, rest, (left - 1) as nat);
        assert(seq![s[0]] + rest =~= s);
    }
}

proof fn lemma_args_at(
    w: Seq<u8>,
    before: Seq<u8>,
    strs: Seq<Seq<u8>>,
    argc: int,
    top: int,
    i: int,
    n: int,
)
    requires
        0 <= i <= n <= argc <= strs.len(),
        0 < initial_rsp(strs, top),
        top <= u64::MAX,
        stack_built(w, before, strs, argc, top),
        forall|k: int|
            0 <= k < n ==> (#[trigger] strs[k]).len() <= 128 && valid_utf8(strs[k]) && !strs[k].contains(
                0,
            ),
    ensures
        args_at(w, initial_rsp(strs, top), i, n) == strs.subrange(i, n),
    decreases n - i,
{
    let rsp = initial_rsp(strs, top);
    if i < n {
        let s = strs[i];
        let at = string_addr(strs, top, (i + 1) as nat);
        crate::proc::exec::lemma_string_addr(strs, top, (i + 1) as nat, strs.len());
        crate::proc::exec::lemma_string_addr(strs, top, 0, (i + 1) as nat);
        assert(le_u64(w, 8 * (1 + i)) == stack_word(strs, argc, top, 1 + i));
        assert(stack_word(strs, argc, top, 1 + i) == at);
        assert(word_at(w, 1 + i) == at);
        assert(w.subrange(at - rsp, at - rsp + s.len() as int) == s);
        assert forall|k: int| 0 <= k < s.len() implies #[trigger] s[k] != 0 by {
            if s[k] == 0 {
                assert(s.contains(0));
            }
        }
        lemma_c_string(w, rsp, at, s, 128);
        lemma_args_at(w, before, strs, argc, top, i + 1, n);
        assert(seq![s] + strs.subrange(i + 1, n) =~= strs.subrange(i, n));
    } else {
        assert(strs.subrange(i, n) =~= Seq::<Seq<u8>>::empty());
    }
}

/// A program sees the arguments that it was executed with: what the kernel lays
/// out on the stack of a new image is read back, up to 16 arguments of at most
/// 128 bytes.
pub proof fn program_sees_its_arguments(
    w: Seq<u8>,
    before: Seq<u8>,
    strs: Seq<Seq<u8>>,
    argc: int,
    top: int,
)
    requires
        0 <= argc <= strs.len() <= 64,
        0 < initial_rsp(strs, top),
        top <= u64::MAX,
        stack_built(w, before, strs, argc, top),
        forall|k: int|
            0 <= k < argc ==> (#[trigger] strs[k]).len() <= 128 && valid_utf8(strs[k]) && !strs[k].contains(
                0,
            ),
    ensures
        stack_args(w, initial_rsp(strs, top) as u64) == strs.take(
            if argc > 16 {
                16
            } else {
                argc
            },
        ),
{
    let rsp = initial_rsp(strs, top);
    let n = if argc > 16 {
        16
    } else {
        argc
    };
    crate::proc::exec::lemma_string_addr(strs, top, 0, strs.len());
    let zero = 0int;
    assert(le_u64(w, 8 * zero) == stack_word(strs, argc, top, zero));
    assert(word_at(w, 0) == argc);
    lemma_args_at(w, before, strs, argc, top, 0, n);
    assert(strs.subrange(0, n) =~= strs.take(n));
}

} // verus!
