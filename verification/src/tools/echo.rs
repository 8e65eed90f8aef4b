//! `echo`: its arguments, with a space between two and a newline at the end.

use vstd::prelude::*;

verus! {

/// The arguments from `i` on, joined by spaces.
pub open spec fn joined(args: Seq<Vec<u8>>, i: int) -> Seq<u8>
    decreases args.len() - i,
{
    if i >= args.len() {
        Seq::empty()
    } else if i == 0 {
        args[i]@ + joined(args, i + 1)
    } else {
        seq![32u8] + args[i]@ + joined(args, i + 1)
    }
}

/// What `echo` writes; `args` are the arguments after its name.
pub fn echo(args: &[Vec<u8>]) -> (r: Vec<u8>)
    ensures
        r@ == joined(args@, 0).push(10),
{
    let mut out: Vec<u8> = Vec::new();
    let mut i: usize = 0;
    assert(out@ + joined(args@, 0) =~= joined(args@, 0));
    while i < args.len()
        invariant
            i <= args@.len(),
            out@ + joined(args@, i as int) == joined(args@, 0),
        decreases args@.len() - i,
    {
        let ghost before = out@;
        let ghost left = joined(args@, i as int);
        if i > 0 {
            out.push(32);
        }
        out.extend_from_slice(args[i].as_slice());
        i += 1;
        assert(before + left =~= out@ + joined(args@, i as int));
    }
    assert(out@ + joined(args@, i as int) =~= out@);
    out.push(10);
    out
}

/// One argument is printed as it is; each further one follows after one blank.
pub proof fn arguments_are_printed_with_blanks(args: Seq<Vec<u8>>, x: Vec<u8>)
    ensures
        joined(Seq::empty(), 0) == Seq::<u8>::empty(),
        joined(seq![x], 0) == x@,
        args.len() > 0 ==> joined(args.push(x), 0) == joined(args, 0) + seq![0x20u8] + x@,
{
    reveal_with_fuel(joined, 3);
    assert(joined(seq![x], 0) =~= x@);
    if args.len() > 0 {
        lemma_joined_more(args, x, 0);
    }
}

proof fn lemma_joined_more(args: Seq<Vec<u8>>, x: Vec<u8>, i: int)
    requires
        0 <= i < args.len(),
    ensures
        joined(args.push(x), i) == joined(args, i) + seq![0x20u8] + x@,
    decreases args.len() - i,
{
    let more = args.push(x);
    assert(more[i] == args[i]);
    if i + 1 < args.len() {
        lemma_joined_more(args, x, i + 1);
        assert(joined(more, i) =~= joined(args, i) + seq![0x20u8] + x@);
    } else {
        reveal_with_fuel(joined, 3);
        assert(joined(more, i + 1) =~= seq![0x20u8] + x@);
        assert(joined(args, i + 1) =~= Seq::<u8>::empty());
        assert(joined(more, i) =~= joined(args, i) + seq![0x20u8] + x@);
    }
}

} // verus!
