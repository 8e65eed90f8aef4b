//! Running a pipeline. All pipes are made before any stage is forked, and all
//! stages are forked before any is waited for; the shell keeps no pipe open
//! while it waits.

use vstd::prelude::*;
use vstd::string::*;
use crate::liblow::call::{wexitstatus, wifexited, O_CREAT, O_RDONLY, O_TRUNC, O_WRONLY, STDIN, STDOUT};
use super::parse::{RedirectKind, Stage, MAX_PIPELINE_STAGES};

verus! {

/// The exit code of a command that cannot be found.
pub const EXIT_NOT_FOUND: i32 = 127;

/// The exit code of a stage whose files cannot be set up.
pub const EXIT_REDIRECT_FAIL: i32 = 1;

/// The two ends of a pipe.
#[derive(Clone, Copy, Debug, PartialEq, Eq, Structural)]
pub struct PipeFds {
    pub read: i32,
    pub write: i32,
}

/// Something to do at once.
#[derive(Clone, Copy, Debug, PartialEq, Eq, Structural)]
pub enum ShellOp {
    Close(i32),
    /// Say that a pipe could not be made.
    PipeFailed,
    /// Say that a stage could not be forked.
    ForkFailed,
}

/// What a pipeline needs next.
#[derive(Clone, Copy, Debug, PartialEq, Eq, Structural)]
pub enum RunAction {
    MakePipe,
    /// Fork the stage of this number.
    Fork(usize),
    /// This is the child: become the stage of this number.
    BeStage(usize),
    /// Wait for any child.
    Wait,
    /// It has been run; its exit code.
    Finish(i32),
}

/// Things to do, and what comes then.
pub struct RunStep {
    pub ops: Vec<ShellOp>,
    pub next: RunAction,
}

/// A pipeline that is being run.
pub struct PipelineRun {
    pub stages: usize,
    /// The pipe behind each stage but the last.
    pub pipes: Vec<PipeFds>,
    /// The processes of the stages.
    pub pids: Vec<i64>,
    /// How many processes have been waited for.
    pub reaped: usize,
    /// How the last stage ended.
    pub last_status: i32,
}

/// Close both ends of the first `n` pipes.
pub open spec fn closes(pipes: Seq<PipeFds>, n: nat) -> Seq<ShellOp>
    decreases n,
{
    if n == 0 {
        Seq::empty()
    } else {
        closes(pipes, (n - 1) as nat).push(ShellOp::Close(pipes[n - 1].read)).push(
            ShellOp::Close(pipes[n - 1].write),
        )
    }
}

fn close_all(ops: &mut Vec<ShellOp>, pipes: &Vec<PipeFds>)
    ensures
        final(ops)@ == old(ops)@ + closes(pipes@, pipes@.len()),
{
    let ghost before = ops@;
    let mut i: usize = 0;
    assert(before + closes(pipes@, 0) =~= before);
    while i < pipes.len()
        invariant
            i <= pipes@.len(),
            ops@ == before + closes(pipes@, i as nat),
        decreases pipes@.len() - i,
    {
        ops.push(ShellOp::Close(pipes[i].read));
        ops.push(ShellOp::Close(pipes[i].write));
        i += 1;
        assert(ops@ =~= before + closes(pipes@, i as nat));
    }
}

/// What a wait that returned `pid` and `status` does to the run of a pipeline, and
/// what is to be done next.
pub open spec fn run_waited(
    before: PipelineRun,
    after: PipelineRun,
    pid: i64,
    status: i32,
    next: RunAction,
) -> bool {
    if pid < 0 {
        after == before && next == RunAction::Finish(exit_code(before.last_status))
    } else {
        &&& after == (PipelineRun {
            reaped: (before.reaped + 1) as usize,
            last_status: if before.last_pid() == Some(pid) {
                status
            } else {
                before.last_status
            },
            ..before
        })
        &&& next == (if before.reaped + 1 < before.pids@.len() {
            RunAction::Wait
        } else {
            RunAction::Finish(exit_code(after.last_status))
        })
    }
}

/// The exit code that a status stands for.
pub open spec fn exit_code(status: i32) -> i32 {
    if status & 0x7f == 0 {
        (status >> 8) & 0xff
    } else {
        1
    }
}

fn code_of(status: i32) -> (r: i32)
    ensures
        r == exit_code(status),
{
    if wifexited(status) {
        wexitstatus(status)
    } else {
        1
    }
}

impl PipelineRun {
    pub open spec fn wf(&self) -> bool {
        &&& 1 <= self.stages <= 8
        &&& self.pipes@.len() < self.stages
        &&& self.pids@.len() <= self.stages
        &&& self.reaped <= self.pids@.len()
    }

    /// The process of the last stage, if all of them have been forked.
    pub open spec fn last_pid(&self) -> Option<i64> {
        if self.pids@.len() == self.stages {
            Some(self.pids@[self.stages - 1])
        } else {
            None
        }
    }

    /// A pipe has been made, or has failed: then the pipes made so far are
    /// closed again.
    pub fn pipe_made(&mut self, made: Result<(i32, i32), i64>) -> (r: RunStep)
        requires
            old(self).wf(),
            old(self).pipes@.len() + 1 < old(self).stages,
            old(self).pids@.len() == 0,
        ensures
            final(self).wf(),
            match made {
                Ok((read, write)) => {
                    &&& final(self).pipes@ == old(self).pipes@.push(PipeFds { read, write })
                    &&& *final(self) == (PipelineRun { pipes: final(self).pipes, ..*old(self) })
                    &&& r.ops@.len() == 0
                    &&& r.next == (if old(self).pipes@.len() + 2 < old(self).stages {
                        RunAction::MakePipe
                    } else {
                        RunAction::Fork(0)
                    })
                },
                Err(_) => {
                    &&& *final(self) == *old(self)
                    &&& r.ops@ == seq![ShellOp::PipeFailed] + closes(
                        old(self).pipes@,
                        old(self).pipes@.len(),
                    )
                    &&& r.next == RunAction::Finish(1)
                },
            },
    {
        let mut ops: Vec<ShellOp> = Vec::new();
        match made {
            Ok((read, write)) => {
                self.pipes.push(PipeFds { read, write });
                let next = if self.pipes.len() < self.stages - 1 {
                    RunAction::MakePipe
                } else {
                    RunAction::Fork(0)
                };
                RunStep { ops, next }
            },
            Err(_) => {
                ops.push(ShellOp::PipeFailed);
                close_all(&mut ops, &self.pipes);
                assert(ops@ =~= seq![ShellOp::PipeFailed] + closes(
                    self.pipes@,
                    self.pipes@.len(),
                ));
                RunStep { ops, next: RunAction::Finish(1) }
            },
        }
    }

    /// A stage has been forked, as `pid`: 0 in the child itself, negative if it
    /// failed. Once there is nothing more to fork, all pipes are closed.
    pub fn forked(&mut self, pid: i64) -> (r: RunStep)
        requires
            old(self).wf(),
            old(self).pipes@.len() + 1 == old(self).stages,
            old(self).pids@.len() < old(self).stages,
        ensures
            final(self).wf(),
            ({
                let closed = closes(old(self).pipes@, old(self).pipes@.len());
                let i = old(self).pids@.len();
                if pid < 0 {
                    &&& *final(self) == *old(self)
                    &&& r.ops@ == seq![ShellOp::ForkFailed] + closed
                    &&& r.next == (if old(self).reaped < i {
                        RunAction::Wait
                    } else {
                        RunAction::Finish(exit_code(old(self).last_status))
                    })
                } else if pid == 0 {
                    &&& *final(self) == *old(self)
                    &&& r.ops@.len() == 0
                    &&& r.next == RunAction::BeStage(i as usize)
                } else {
                    &&& final(self).pids@ == old(self).pids@.push(pid)
                    &&& *final(self) == (PipelineRun { pids: final(self).pids, ..*old(self) })
                    &&& r.ops@ == (if i + 1 == old(self).stages {
                        closed
                    } else {
                        Seq::empty()
                    })
                    &&& r.next == (if i + 1 == old(self).stages {
                        RunAction::Wait
                    } else {
                        RunAction::Fork((i + 1) as usize)
                    })
                }
            }),
    {
        let mut ops: Vec<ShellOp> = Vec::new();
        if pid < 0 {
            ops.push(ShellOp::ForkFailed);
            close_all(&mut ops, &self.pipes);
            assert(ops@ =~= seq![ShellOp::ForkFailed] + closes(self.pipes@, self.pipes@.len()));
            let next = if self.reaped < self.pids.len() {
                RunAction::Wait
            } else {
                RunAction::Finish(code_of(self.last_status))
            };
            return RunStep { ops, next };
        }
        if pid == 0 {
            return RunStep { ops, next: RunAction::BeStage(self.pids.len()) };
        }
        self.pids.push(pid);
        if self.pids.len() == self.stages {
            close_all(&mut ops, &self.pipes);
            assert(ops@ =~= closes(self.pipes@, self.pipes@.len()));
            RunStep { ops, next: RunAction::Wait }
        } else {
            assert(ops@ =~= Seq::<ShellOp>::empty());
            RunStep { ops, next: RunAction::Fork(self.pids.len()) }
        }
    }

    /// Waiting for a child gave its process and how it ended, or an error. The
    /// exit code of a pipeline is that of its last stage.
    pub fn waited(&mut self, pid: i64, status: i32) -> (r: RunAction)
        requires
            old(self).wf(),
            old(self).reaped < old(self).pids@.len(),
        ensures
            final(self).wf(),
            run_waited(*old(self), *final(self), pid, status, r),
    {
        if pid < 0 {
            return RunAction::Finish(code_of(self.last_status));
        }
        if self.pids.len() == self.stages && self.pids[self.stages - 1] == pid {
            self.last_status = status;
        }
        self.reaped = self.reaped + 1;
        if self.reaped < self.pids.len() {
            RunAction::Wait
        } else {
            RunAction::Finish(code_of(self.last_status))
        }
    }
}

/// Begin to run a pipeline of `stages` stages.
pub fn execute_pipeline(stages: usize) -> (r: (PipelineRun, RunAction))
    requires
        stages <= MAX_PIPELINE_STAGES,
    ensures
        r.0.stages == stages,
        r.0.pipes@.len() == 0,
        r.0.pids@.len() == 0,
        r.0.reaped == 0,
        r.0.last_status == 0,
        stages > 0 ==> r.0.wf(),
        r.1 == (if stages == 0 {
            RunAction::Finish(0)
        } else if stages == 1 {
            RunAction::Fork(0)
        } else {
            RunAction::MakePipe
        }),
{
    let run = PipelineRun {
        stages,
        pipes: Vec::new(),
        pids: Vec::new(),
        reaped: 0,
        last_status: 0,
    };
    let next = if stages == 0 {
        RunAction::Finish(0)
    } else if stages == 1 {
        RunAction::Fork(0)
    } else {
        RunAction::MakePipe
    };
    (run, next)
}

/// Why a stage does not run.
#[derive(Clone, Copy, Debug, PartialEq, Eq, Structural)]
pub enum ChildFailure {
    PipeInput,
    PipeOutput,
    /// The file to read cannot be opened.
    OpenInput,
    FileInput,
    /// The file to write cannot be made.
    OpenOutput,
    FileOutput,
    NotFound,
}

/// What is said of a failure.
pub open spec fn failure_text(f: ChildFailure) -> Seq<char> {
    match f {
        ChildFailure::PipeInput => "shell: dup2(stdin) failed\n"@,
        ChildFailure::PipeOutput => "shell: dup2(stdout) failed\n"@,
        ChildFailure::OpenInput => "shell: cannot open "@,
        ChildFailure::FileInput => "shell: dup2(< file) failed\n"@,
        ChildFailure::OpenOutput => "shell: cannot create "@,
        ChildFailure::FileOutput => "shell: dup2(> file) failed\n"@,
        ChildFailure::NotFound => "shell: command not found: "@,
    }
}

impl ChildFailure {
    /// What is said; where a file or a command cannot be found, its name
    /// follows, and a newline.
    pub fn message(&self) -> (r: &'static str)
        ensures
            r@ == failure_text(*self),
    {
        match self {
            ChildFailure::PipeInput => "shell: dup2(stdin) failed\n",
            ChildFailure::PipeOutput => "shell: dup2(stdout) failed\n",
            ChildFailure::OpenInput => "shell: cannot open ",
            ChildFailure::FileInput => "shell: dup2(< file) failed\n",
            ChildFailure::OpenOutput => "shell: cannot create ",
            ChildFailure::FileOutput => "shell: dup2(> file) failed\n",
            ChildFailure::NotFound => "shell: command not found: ",
        }
    }

    /// Whether a name follows what is said.
    pub fn names_file(&self) -> (r: bool)
        ensures
            r == (*self == ChildFailure::OpenInput || *self == ChildFailure::OpenOutput || *self
                == ChildFailure::NotFound),
    {
        match self {
            ChildFailure::OpenInput => true,
            ChildFailure::OpenOutput => true,
            ChildFailure::NotFound => true,
            _ => false,
        }
    }

    /// The exit code of a stage that fails so.
    pub fn exit_code(&self) -> (r: i32)
        ensures
            r == (if *self == ChildFailure::NotFound {
                EXIT_NOT_FOUND
            } else {
                EXIT_REDIRECT_FAIL
            }),
    {
        match self {
            ChildFailure::NotFound => EXIT_NOT_FOUND,
            _ => EXIT_REDIRECT_FAIL,
        }
    }
}

/// One step on the way of a child to becoming its stage. A step that fails ends
/// the child.
#[derive(Clone, Copy, Debug, PartialEq, Eq)]
pub enum ChildStep<'a> {
    /// Make `to` stand for what `from` stands for.
    Dup { from: i32, to: i32, failure: ChildFailure },
    /// Open a file, make `to` stand for it, and close what was opened.
    Redirect {
        path: &'a str,
        flags: u32,
        to: i32,
        open_failure: ChildFailure,
        dup_failure: ChildFailure,
    },
    Close(i32),
    /// Become the program; if that returns, it cannot be found.
    Exec,
    Exit(i32),
}

/// The steps that make the standard files those of the pipes next to stage `i`.
pub open spec fn pipe_steps<'a>(i: int, n: int, pipes: Seq<PipeFds>) -> Seq<ChildStep<'a>> {
    let input = if i > 0 {
        seq![
            ChildStep::Dup {
                from: pipes[i - 1].read,
                to: STDIN,
                failure: ChildFailure::PipeInput,
            },
        ]
    } else {
        Seq::empty()
    };
    let output = if i + 1 < n {
        seq![
            ChildStep::Dup {
                from: pipes[i].write,
                to: STDOUT,
                failure: ChildFailure::PipeOutput,
            },
        ]
    } else {
        Seq::empty()
    };
    input + output
}

/// The steps that make the standard files those that the stage names.
pub open spec fn redirect_steps<'a>(stage: Stage<'a>) -> Seq<ChildStep<'a>> {
    let input = match stage.redirect_in {
        Some(path) => seq![
            ChildStep::Redirect {
                path,
                flags: O_RDONLY,
                to: STDIN,
                open_failure: ChildFailure::OpenInput,
                dup_failure: ChildFailure::FileInput,
            },
        ],
        None => Seq::empty(),
    };
    let output = match stage.redirect_out {
        Some((path, kind)) => seq![
            ChildStep::Redirect {
                path,
                flags: if kind == RedirectKind::OutAppend {
                    65
                } else {
                    577
                },
                to: STDOUT,
                open_failure: ChildFailure::OpenOutput,
                dup_failure: ChildFailure::FileOutput,
            },
        ],
        None => Seq::empty(),
    };
    input + output
}

/// The steps that close both ends of the first `n` pipes.
pub open spec fn close_steps<'a>(pipes: Seq<PipeFds>, n: nat) -> Seq<ChildStep<'a>>
    decreases n,
{
    if n == 0 {
        Seq::empty()
    } else {
        close_steps(pipes, (n - 1) as nat).push(ChildStep::Close(pipes[n - 1].read)).push(
            ChildStep::Close(pipes[n - 1].write),
        )
    }
}

/// Every step on the way of a child to becoming stage `i` of `n`.
pub open spec fn stage_steps<'a>(stage: Stage<'a>, i: int, n: int, pipes: Seq<PipeFds>) -> Seq<
    ChildStep<'a>,
> {
    pipe_steps(i, n, pipes) + redirect_steps(stage) + close_steps(pipes, pipes.len()) + seq![
        if stage.argc == 0 {
            ChildStep::Exit(EXIT_NOT_FOUND)
        } else {
            ChildStep::Exec
        },
    ]
}

/// The way of a child to becoming stage `i` of `n`. A file that the stage names
/// takes the place of the pipe, and no pipe stays open that the program does
/// not use.
pub fn child_setup_and_exec<'a>(
    stage: &Stage<'a>,
    i: usize,
    n: usize,
    pipes: &Vec<PipeFds>,
) -> (r: Vec<ChildStep<'a>>)
    requires
        i < n <= MAX_PIPELINE_STAGES,
        pipes@.len() == n - 1,
    ensures
        r@ == stage_steps(*stage, i as int, n as int, pipes@),
{
    let mut steps: Vec<ChildStep<'a>> = Vec::new();
    if i > 0 {
        steps.push(
            ChildStep::Dup {
                from: pipes[i - 1].read,
                to: STDIN,
                failure: ChildFailure::PipeInput,
            },
        );
    }
    if i + 1 < n {
        steps.push(
            ChildStep::Dup {
                from: pipes[i].write,
                to: STDOUT,
                failure: ChildFailure::PipeOutput,
            },
        );
    }
    assert(steps@ =~= pipe_steps(i as int, n as int, pipes@));
    if let Some(path) = stage.redirect_in {
        steps.push(
            ChildStep::Redirect {
                path,
                flags: O_RDONLY,
                to: STDIN,
                open_failure: ChildFailure::OpenInput,
                dup_failure: ChildFailure::FileInput,
            },
        );
    }
    if let Some((path, kind)) = stage.redirect_out {
        let flags: u32 = match kind {
            RedirectKind::OutAppend => O_WRONLY + O_CREAT,
            _ => O_WRONLY + O_CREAT + O_TRUNC,
        };
        steps.push(
            ChildStep::Redirect {
                path,
                flags,
                to: STDOUT,
                open_failure: ChildFailure::OpenOutput,
                dup_failure: ChildFailure::FileOutput,
            },
        );
    }
    let ghost before = pipe_steps(i as int, n as int, pipes@) + redirect_steps(*stage);
    assert(steps@ =~= before);
    let mut k: usize = 0;
    assert(before + close_steps(pipes@, 0) =~= before);
    while k < pipes.len()
        invariant
            k <= pipes@.len(),
            steps@ == before + close_steps(pipes@, k as nat),
        decreases pipes@.len() - k,
    {
        steps.push(ChildStep::Close(pipes[k].read));
        steps.push(ChildStep::Close(pipes[k].write));
        k += 1;
        assert(steps@ =~= before + close_steps(pipes@, k as nat));
    }
    let last = if stage.argc == 0 {
        ChildStep::Exit(EXIT_NOT_FOUND)
    } else {
        ChildStep::Exec
    };
    steps.push(last);
    assert(steps@ =~= before + close_steps(pipes@, pipes@.len()) + seq![last]);
    steps
}

/// Both ends of every pipe are closed on the way.
pub proof fn every_pipe_is_closed(pipes: Seq<PipeFds>, n: nat, j: int)
    requires
        0 <= j < n <= pipes.len(),
    ensures
        closes(pipes, n).contains(ShellOp::Close(pipes[j].read)),
        closes(pipes, n).contains(ShellOp::Close(pipes[j].write)),
        close_steps(pipes, n).contains(ChildStep::Close(pipes[j].read)),
        close_steps(pipes, n).contains(ChildStep::Close(pipes[j].write)),
    decreases n,
{
    let m = (n - 1) as nat;
    lemma_close_len(pipes, m);
    let a = closes(pipes, n);
    let b = close_steps(pipes, n);
    if j == m {
        assert(a[a.len() - 2] == ShellOp::Close(pipes[j].read));
        assert(a[a.len() - 1] == ShellOp::Close(pipes[j].write));
        assert(b[b.len() - 2] == ChildStep::Close(pipes[j].read));
        assert(b[b.len() - 1] == ChildStep::Close(pipes[j].write));
    } else {
        every_pipe_is_closed(pipes, m, j);
        let a0 = closes(pipes, m);
        let b0 = close_steps(pipes, m);
        let x1 = choose|x: int| 0 <= x < a0.len() && a0[x] == ShellOp::Close(pipes[j].read);
        let x2 = choose|x: int| 0 <= x < a0.len() && a0[x] == ShellOp::Close(pipes[j].write);
        let y1 = choose|x: int| 0 <= x < b0.len() && b0[x] == ChildStep::Close(pipes[j].read);
        let y2 = choose|x: int|
            0 <= x < b0.len() && b0[x] == ChildStep::Close(pipes[j].write);
        assert(a[x1] == a0[x1] && a[x2] == a0[x2]);
        assert(b[y1] == b0[y1] && b[y2] == b0[y2]);
    }
}

proof fn lemma_close_len(pipes: Seq<PipeFds>, n: nat)
    ensures
        closes(pipes, n).len() == 2 * n,
        close_steps(pipes, n).len() == 2 * n,
    decreases n,
{
    if n > 0 {
        lemma_close_len(pipes, (n - 1) as nat);
    }
}

} // verus!
