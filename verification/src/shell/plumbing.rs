//! How the stages of a pipeline are connected.

use vstd::prelude::*;
use vstd::string::*;
use super::exec::{close_steps, exit_code, pipe_steps, redirect_steps, stage_steps, ChildStep, PipeFds};
use super::parse::{RedirectKind, Stage};

verus! {

/// The descriptors of a process: what each open one stands for.
pub type Descriptors = Map<i32, int>;

/// The descriptors after one step. `opened` tells what a file stands for that is
/// opened by its path with the given flags.
pub open spec fn step_taken(
    fds: Descriptors,
    step: ChildStep,
    opened: spec_fn(Seq<u8>, u32) -> int,
) -> Descriptors {
    match step {
        ChildStep::Dup { from, to, .. } => fds.insert(to, fds[from]),
        ChildStep::Redirect { path, flags, to, .. } => fds.insert(
            to,
            opened(path.spec_bytes(), flags),
        ),
        ChildStep::Close(fd) => fds.remove(fd),
        ChildStep::Exec => fds,
        ChildStep::Exit(_) => fds,
    }
}

/// The descriptors after all steps.
pub open spec fn steps_taken(
    fds: Descriptors,
    steps: Seq<ChildStep>,
    opened: spec_fn(Seq<u8>, u32) -> int,
) -> Descriptors
    decreases steps.len(),
{
    if steps.len() == 0 {
        fds
    } else {
        step_taken(steps_taken(fds, steps.drop_last(), opened), steps.last(), opened)
    }
}

proof fn lemma_steps_join(
    fds: Descriptors,
    a: Seq<ChildStep>,
    b: Seq<ChildStep>,
    opened: spec_fn(Seq<u8>, u32) -> int,
)
    ensures
        steps_taken(fds, a + b, opened) == steps_taken(steps_taken(fds, a, opened), b, opened),
    decreases b.len(),
{
    if b.len() == 0 {
        assert(a + b =~= a);
    } else {
        lemma_steps_join(fds, a, b.drop_last(), opened);
        assert((a + b).drop_last() =~= a + b.drop_last());
    }
}

/// Closing pipes closes their ends and nothing else.
proof fn lemma_closed(
    fds: Descriptors,
    pipes: Seq<PipeFds>,
    n: nat,
    opened: spec_fn(Seq<u8>, u32) -> int,
)
    requires
        n <= pipes.len(),
    ensures
        ({
            let after = steps_taken(fds, close_steps(pipes, n), opened);
            &&& forall|fd: i32|
                (forall|j: int| 0 <= j < n ==> (#[trigger] pipes[j]).read != fd && pipes[j].write != fd)
                    ==> (#[trigger] after.contains_key(fd) <==> fds.contains_key(fd)) && (
                fds.contains_key(fd) ==> after[fd] == fds[fd])
            &&& forall|j: int|
                0 <= j < n ==> !after.contains_key((#[trigger] pipes[j]).read)
                    && !after.contains_key(pipes[j].write)
        }),
    decreases n,
{
    if n > 0 {
        let m = (n - 1) as nat;
        lemma_closed(fds, pipes, m, opened);
        let before = close_steps::<'static>(pipes, m);
        let mid = before.push(ChildStep::Close(pipes[m as int].read));
        let all = mid.push(ChildStep::Close(pipes[m as int].write));
        assert(close_steps(pipes, n) =~= all);
        assert(all.drop_last() =~= mid);
        assert(mid.drop_last() =~= before);
        let f = steps_taken(fds, before, opened);
        let after = steps_taken(fds, close_steps(pipes, n), opened);
        reveal_with_fuel(steps_taken, 3);
        assert(after == f.remove(pipes[m as int].read).remove(pipes[m as int].write));
        assert forall|fd: i32|
            (forall|j: int| 0 <= j < n ==> (#[trigger] pipes[j]).read != fd && pipes[j].write != fd) implies (
        #[trigger] after.contains_key(fd) <==> fds.contains_key(fd)) && (fds.contains_key(fd)
            ==> after[fd] == fds[fd]) by {
            assert(pipes[m as int].read != fd && pipes[m as int].write != fd);
            assert(f.contains_key(fd) <==> fds.contains_key(fd));
        }
        assert forall|j: int| 0 <= j < n implies !after.contains_key((#[trigger] pipes[j]).read)
            && !after.contains_key(pipes[j].write) by {
            if j < m {
                assert(!f.contains_key(pipes[j].read) && !f.contains_key(pipes[j].write));
            }
        }
    }
}

/// What a stage reads and writes. Its standard output is the file that it names,
/// else the write end of the pipe behind it, else the shell's own; its standard
/// input is the file that it names, else the read end of the pipe before it, else
/// the shell's own. Its standard error is the shell's, and no pipe stays open by
/// another number.
pub proof fn stage_reads_and_writes(
    stage: Stage,
    i: int,
    n: int,
    pipes: Seq<PipeFds>,
    fds: Descriptors,
    opened: spec_fn(Seq<u8>, u32) -> int,
)
    requires
        0 <= i < n,
        pipes.len() == n - 1,
        fds.contains_key(0) && fds.contains_key(1) && fds.contains_key(2),
        forall|j: int|
            0 <= j < pipes.len() ==> {
                &&& (#[trigger] pipes[j]).read > 2
                &&& pipes[j].write > 2
                &&& fds.contains_key(pipes[j].read)
                &&& fds.contains_key(pipes[j].write)
            },
    ensures
        ({
            let after = steps_taken(fds, stage_steps(stage, i, n, pipes), opened);
            &&& after.contains_key(0) && after.contains_key(1) && after.contains_key(2)
            &&& after[1] == (match stage.redirect_out {
                Some((path, kind)) => opened(
                    path.spec_bytes(),
                    if kind == RedirectKind::OutAppend {
                        0x41
                    } else {
                        0x241
                    },
                ),
                None => if i + 1 < n {
                    fds[pipes[i].write]
                } else {
                    fds[1]
                },
            })
            &&& after[0] == (match stage.redirect_in {
                Some(path) => opened(path.spec_bytes(), 0),
                None => if i > 0 {
                    fds[pipes[i - 1].read]
                } else {
                    fds[0]
                },
            })
            &&& after[2] == fds[2]
            &&& forall|j: int|
                0 <= j < pipes.len() ==> !after.contains_key((#[trigger] pipes[j]).read)
                    && !after.contains_key(pipes[j].write)
        }),
{
    let a = pipe_steps(i, n, pipes);
    let b = redirect_steps(stage);
    let c = close_steps(pipes, pipes.len());
    let d = seq![stage_steps(stage, i, n, pipes).last()];
    let all = stage_steps(stage, i, n, pipes);
    assert(all =~= a + b + c + d);
    lemma_steps_join(fds, a + b + c, d, opened);
    lemma_steps_join(fds, a + b, c, opened);
    lemma_steps_join(fds, a, b, opened);
    let f1 = steps_taken(fds, a, opened);
    let f2 = steps_taken(f1, b, opened);
    let f3 = steps_taken(f2, c, opened);
    reveal_with_fuel(steps_taken, 3);
    assert(d.drop_last() =~= Seq::empty());
    assert(steps_taken(f3, d, opened) == f3);
    if i > 0 && i + 1 < n {
        assert(pipes[i - 1].read > 2 && pipes[i].write > 2);
        assert(a.drop_last().drop_last() =~= Seq::empty());
    } else if i > 0 || i + 1 < n {
        assert(a.drop_last() =~= Seq::empty());
    }
    if stage.redirect_in is Some && stage.redirect_out is Some {
        assert(b.drop_last().drop_last() =~= Seq::empty());
    } else if stage.redirect_in is Some || stage.redirect_out is Some {
        assert(b.drop_last() =~= Seq::empty());
    }
    lemma_closed(f2, pipes, pipes.len(), opened);
    assert(f3.contains_key(0) <==> f2.contains_key(0));
    assert(f3.contains_key(1) <==> f2.contains_key(1));
    assert(f3.contains_key(2) <==> f2.contains_key(2));
}

/// What a stage writes is what the next one reads: its standard output and the
/// standard input of the next are the two ends of one pipe.
pub proof fn stages_are_joined_by_pipes(
    stage: Stage,
    next: Stage,
    i: int,
    n: int,
    pipes: Seq<PipeFds>,
    fds: Descriptors,
    opened: spec_fn(Seq<u8>, u32) -> int,
)
    requires
        0 <= i < n - 1,
        pipes.len() == n - 1,
        stage.redirect_out is None,
        next.redirect_in is None,
        fds.contains_key(0) && fds.contains_key(1) && fds.contains_key(2),
        forall|j: int|
            0 <= j < pipes.len() ==> {
                &&& (#[trigger] pipes[j]).read > 2
                &&& pipes[j].write > 2
                &&& fds.contains_key(pipes[j].read)
                &&& fds.contains_key(pipes[j].write)
            },
    ensures
        steps_taken(fds, stage_steps(stage, i, n, pipes), opened)[1] == fds[pipes[i].write],
        steps_taken(fds, stage_steps(next, i + 1, n, pipes), opened)[0] == fds[pipes[i].read],
{
    stage_reads_and_writes(stage, i, n, pipes, fds, opened);
    stage_reads_and_writes(next, i + 1, n, pipes, fds, opened);
}

/// A stage with a program becomes it, as the last thing it does; one without ends
/// as a command that is not found.
pub proof fn stage_becomes_its_program(stage: Stage, i: int, n: int, pipes: Seq<PipeFds>)
    ensures
        ({
            let last = stage_steps(stage, i, n, pipes).last();
            &&& stage.argc > 0 ==> last == ChildStep::Exec
            &&& stage.argc == 0 ==> last == ChildStep::Exit(127)
        }),
{
}

/// The exit code of a pipeline is what its last stage passed to `exit`, as far as
/// it fits in eight bits, and 1 if a signal ended it.
pub proof fn exit_code_is_what_was_passed(code: u8, signal: i32, rest: i32)
    requires
        0 < signal < 128,
        0 <= rest < 0x100_0000,
    ensures
        exit_code((code * 256) as i32) == code,
        exit_code((rest * 128 + signal) as i32) == 1,
{
    let c = code as i32;
    assert((c * 256) as i32 & 0x7f == 0 && (((c * 256) as i32) >> 8) & 0xff == c) by (bit_vector)
        requires
            0 <= c < 256,
    ;
    assert((rest * 128 + signal) as i32 & 0x7f != 0) by (bit_vector)
        requires
            0 < signal < 128,
            0 <= rest < 0x100_0000,
    ;
}

} // verus!
