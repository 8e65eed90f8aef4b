//! The shell's test of itself: a few lines that must run, and a file that must
//! hold what one of them wrote.

use vstd::prelude::*;
use vstd::string::*;

verus! {

/// The lines that the test runs.
pub const SELFTEST_SCRIPT: [&'static str; 5] = [
    "/bin/echo hello pipeline",
    "/bin/echo hello | /bin/cat",
    "/bin/echo piped twice | /bin/cat | /bin/cat",
    "/bin/echo redirected > /tmp/shellout.txt",
    "/bin/cat < /tmp/shellout.txt",
];

/// What the test does next.
#[derive(Clone, Copy, Debug, PartialEq, Eq)]
pub enum SelfTestStep {
    /// Run a line; its exit code counts.
    Run { line: &'static str, what: &'static str },
    /// Read the start of a file; what it holds counts.
    Check { path: &'static str, what: &'static str },
    /// Say that the test is over; whether all of it passed.
    Done(bool),
}

/// How far the test has come.
#[derive(Clone, Copy, Debug, PartialEq, Eq, Structural)]
pub struct SelfTest {
    pub at: usize,
    pub all_ok: bool,
}

/// Step `at` of the test.
pub open spec fn step_at(at: int, all_ok: bool) -> SelfTestStep {
    if at == 0 {
        SelfTestStep::Run { line: SELFTEST_SCRIPT@[0], what: "echo" }
    } else if at == 1 {
        SelfTestStep::Run { line: SELFTEST_SCRIPT@[1], what: "pipe echo|cat" }
    } else if at == 2 {
        SelfTestStep::Run { line: SELFTEST_SCRIPT@[2], what: "pipe echo|cat|cat" }
    } else if at == 3 {
        SelfTestStep::Run { line: SELFTEST_SCRIPT@[3], what: "redirect > file" }
    } else if at == 4 {
        SelfTestStep::Check { path: "/tmp/shellout.txt", what: "redirected file contents match" }
    } else if at == 5 {
        SelfTestStep::Run { line: SELFTEST_SCRIPT@[4], what: "redirect < file" }
    } else {
        SelfTestStep::Done(all_ok)
    }
}

/// Begin the test.
pub fn run() -> (r: SelfTest)
    ensures
        r == (SelfTest { at: 0, all_ok: true }),
{
    SelfTest { at: 0, all_ok: true }
}

impl SelfTest {
    /// What comes next.
    pub fn step(&self) -> (r: SelfTestStep)
        ensures
            r == step_at(self.at as int, self.all_ok),
    {
        if self.at == 0 {
            SelfTestStep::Run { line: SELFTEST_SCRIPT[0], what: "echo" }
        } else if self.at == 1 {
            SelfTestStep::Run { line: SELFTEST_SCRIPT[1], what: "pipe echo|cat" }
        } else if self.at == 2 {
            SelfTestStep::Run { line: SELFTEST_SCRIPT[2], what: "pipe echo|cat|cat" }
        } else if self.at == 3 {
            SelfTestStep::Run { line: SELFTEST_SCRIPT[3], what: "redirect > file" }
        } else if self.at == 4 {
            SelfTestStep::Check {
                path: "/tmp/shellout.txt",
                what: "redirected file contents match",
            }
        } else if self.at == 5 {
            SelfTestStep::Run { line: SELFTEST_SCRIPT[4], what: "redirect < file" }
        } else {
            SelfTestStep::Done(self.all_ok)
        }
    }

    /// The step has been made, and has passed or not.
    pub fn passed(&mut self, ok: bool)
        requires
            old(self).at < 6,
        ensures
            *final(self) == (SelfTest {
                at: (old(self).at + 1) as usize,
                all_ok: old(self).all_ok && ok,
            }),
    {
        self.at = self.at + 1;
        self.all_ok = self.all_ok && ok;
    }
}

/// What is said of a step.
pub open spec fn report_bytes(ok: bool, what: Seq<u8>) -> Seq<u8> {
    (if ok {
        "shell: ok ".spec_bytes()
    } else {
        "shell: FAIL ".spec_bytes()
    }) + what + seq![10u8]
}

/// The line that reports a step.
pub fn report(ok: bool, what: &str) -> (r: Vec<u8>)
    ensures
        r@ == report_bytes(ok, what.spec_bytes()),
{
    let mut out: Vec<u8> = Vec::new();
    let head = if ok {
        "shell: ok "
    } else {
        "shell: FAIL "
    };
    out.extend_from_slice(head.as_bytes());
    out.extend_from_slice(what.as_bytes());
    out.push(10);
    assert(out@ =~= report_bytes(ok, what.spec_bytes()));
    out
}

/// Whether a file holds what is expected: `fd` is what opening it gave, `n` what
/// reading it into `buf` gave.
pub fn file_matches(fd: i64, n: i64, buf: &[u8], expect: &[u8]) -> (r: bool)
    requires
        n <= buf@.len(),
    ensures
        r == (fd >= 0 && n >= 0 && buf@.take(n as int) == expect@),
{
    if fd < 0 || n < 0 {
        return false;
    }
    assert(buf@.len() == buf.len());
    let count: usize = n as usize;
    if count != expect.len() {
        assert(buf@.take(count as int).len() != expect@.len());
        return false;
    }
    let mut i: usize = 0;
    while i < count
        invariant
            i <= count,
            count == n,
            fd >= 0,
            count == expect@.len(),
            count <= buf@.len(),
            forall|j: int| 0 <= j < i ==> #[trigger] buf@[j] == expect@[j],
        decreases count - i,
    {
        if buf[i] != expect[i] {
            assert(buf@.take(count as int)[i as int] != expect@[i as int]);
            return false;
        }
        i += 1;
    }
    assert(buf@.take(count as int) =~= expect@);
    true
}

} // verus!
