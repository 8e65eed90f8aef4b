//! Starting the system in a virtual machine, and judging what it shows.

use vstd::prelude::*;
use vstd::string::*;
use crate::lines::{chars_of, line_spans, lines_from, spans};
use crate::text::{dec, push_dec, push_str};
use crate::xtask::expected::{first_at, find_from, match_expected, matched, positions, ExpectedLine};

verus! {

/// How the machine's processor is run.
pub struct Accel {
    pub cpu: Vec<u8>,
    pub name: Vec<u8>,
    pub accel: Vec<u8>,
}

fn bytes_of(s: &str) -> (r: Vec<u8>)
    ensures
        r@ == s.spec_bytes(),
{
    let mut out: Vec<u8> = Vec::new();
    push_str(&mut out, s);
    assert(out@ =~= s.spec_bytes());
    out
}

/// The host's own processor where it can be used; else an emulated one, whose
/// buffer for translated code has `tb_size` megabytes.
pub fn accelerator(use_kvm: bool, tb_size: u32) -> (r: Accel)
    ensures
        r.cpu@ == (if use_kvm {
            "host".spec_bytes()
        } else {
            "max".spec_bytes()
        }),
        r.name@ == (if use_kvm {
            "kvm".spec_bytes()
        } else {
            "tcg".spec_bytes()
        }),
        r.accel@ == (if use_kvm {
            "kvm".spec_bytes()
        } else {
            "tcg,tb-size=".spec_bytes() + dec(tb_size as nat)
        }),
{
    if use_kvm {
        Accel { cpu: bytes_of("host"), name: bytes_of("kvm"), accel: bytes_of("kvm") }
    } else {
        let mut accel = bytes_of("tcg,tb-size=");
        push_dec(&mut accel, tb_size as u64);
        Accel { cpu: bytes_of("max"), name: bytes_of("tcg"), accel }
    }
}

/// The bytes of each word of a command line.
pub open spec fn words(v: Seq<Vec<u8>>) -> Seq<Seq<u8>> {
    v.map_values(|w: Vec<u8>| w@)
}

fn arg(out: &mut Vec<Vec<u8>>, s: &str)
    ensures
        words(final(out)@) == words(old(out)@).push(s.spec_bytes()),
{
    out.push(bytes_of(s));
    assert(words(out@) =~= words(old(out)@).push(s.spec_bytes()));
}

fn arg_of(out: &mut Vec<Vec<u8>>, before: &str, s: &str, after: &str)
    ensures
        words(final(out)@) == words(old(out)@).push(
            before.spec_bytes() + s.spec_bytes() + after.spec_bytes(),
        ),
{
    let mut w = bytes_of(before);
    push_str(&mut w, s);
    push_str(&mut w, after);
    out.push(w);
    assert(words(out@) =~= words(old(out)@).push(
        before.spec_bytes() + s.spec_bytes() + after.spec_bytes(),
    ));
}

/// The words that every start has in common: the machine, no display, the
/// firmware, the system's directory as a disk whose changes are thrown away,
/// and a network card whose traffic is kept in a file.
pub open spec fn common_args(
    machine: Seq<u8>,
    cpu: Seq<u8>,
    mem: Seq<u8>,
    ovmf: Seq<u8>,
    esp: Seq<u8>,
) -> Seq<Seq<u8>> {
    seq![
        "-machine".spec_bytes(),
        machine,
        "-cpu".spec_bytes(),
        cpu,
        "-smp".spec_bytes(),
        "4".spec_bytes(),
        "-m".spec_bytes(),
        mem,
        "-display".spec_bytes(),
        "none".spec_bytes(),
        "-no-reboot".spec_bytes(),
        "-no-shutdown".spec_bytes(),
        "-drive".spec_bytes(),
        "if=pflash,format=raw,read-only=on,file=".spec_bytes() + ovmf + "".spec_bytes(),
        "-drive".spec_bytes(),
        "format=raw,file=fat:".spec_bytes() + esp + ",snapshot=on".spec_bytes(),
        "-netdev".spec_bytes(),
        "user,id=n0".spec_bytes(),
        "-device".spec_bytes(),
        "virtio-net-pci,netdev=n0".spec_bytes(),
        "-object".spec_bytes(),
        "filter-dump,id=netdump,netdev=n0,file=target/virtio-capture.pcap".spec_bytes(),
    ]
}

/// The words that every start has in common.
pub fn qemu_common_args(machine: &str, cpu: &str, mem: &str, ovmf: &str, esp: &str) -> (r: Vec<
    Vec<u8>,
>)
    ensures
        words(r@) == common_args(
            machine.spec_bytes(),
            cpu.spec_bytes(),
            mem.spec_bytes(),
            ovmf.spec_bytes(),
            esp.spec_bytes(),
        ),
{
    let mut out: Vec<Vec<u8>> = Vec::new();
    arg(&mut out, "-machine");
    arg(&mut out, machine);
    arg(&mut out, "-cpu");
    arg(&mut out, cpu);
    arg(&mut out, "-smp");
    arg(&mut out, "4");
    arg(&mut out, "-m");
    arg(&mut out, mem);
    arg(&mut out, "-display");
    arg(&mut out, "none");
    arg(&mut out, "-no-reboot");
    arg(&mut out, "-no-shutdown");
    arg(&mut out, "-drive");
    arg_of(&mut out, "if=pflash,format=raw,read-only=on,file=", ovmf, "");
    arg(&mut out, "-drive");
    arg_of(&mut out, "format=raw,file=fat:", esp, ",snapshot=on");
    arg(&mut out, "-netdev");
    arg(&mut out, "user,id=n0");
    arg(&mut out, "-device");
    arg(&mut out, "virtio-net-pci,netdev=n0");
    arg(&mut out, "-object");
    arg(&mut out, "filter-dump,id=netdump,netdev=n0,file=target/virtio-capture.pcap");
    assert(words(out@) =~= common_args(
        machine.spec_bytes(),
        cpu.spec_bytes(),
        mem.spec_bytes(),
        ovmf.spec_bytes(),
        esp.spec_bytes(),
    ));
    out
}

/// Every expected line is found in `log`.
pub open spec fn all_found(log: Seq<u8>, expected: Seq<ExpectedLine>) -> bool {
    let found = matched(log, expected, expected.len()).1;
    forall|i: int| 0 <= i < found.len() ==> (#[trigger] found[i]) is Some
}

/// Whether every expected line is found in `log`.
pub fn is_all_found(log: &str, expected: &[ExpectedLine]) -> (r: bool)
    ensures
        r == all_found(log.spec_bytes(), expected@),
{
    let found = match_expected(log, expected);
    let ghost want = matched(log.spec_bytes(), expected@, expected@.len()).1;
    let mut i: usize = 0;
    assert(positions(found@).len() == found@.len());
    while i < found.len()
        invariant
            i <= found@.len(),
            want == matched(log.spec_bytes(), expected@, expected@.len()).1,
            positions(found@) == want,
            want.len() == found@.len(),
            forall|k: int| 0 <= k < i ==> (#[trigger] want[k]) is Some,
        decreases found@.len() - i,
    {
        assert(positions(found@)[i as int] == want[i as int]);
        if found[i].is_none() {
            assert(want[i as int] is None);
            return false;
        }
        i += 1;
    }
    true
}

/// What a look at a running machine says.
#[derive(Clone, Copy, PartialEq, Eq, Structural, Debug)]
pub enum Poll {
    Passed,
    Died,
    TimedOut,
    Waiting,
}

/// A test has passed as soon as the log shows all that is expected. Else a
/// machine that has ended by itself has failed, as has one whose time is up.
pub fn poll_boot(log: Option<&str>, expected: &[ExpectedLine], died: bool, late: bool) -> (r: Poll)
    ensures
        r == (if log is Some && all_found(log->Some_0.spec_bytes(), expected@) {
            Poll::Passed
        } else if died {
            Poll::Died
        } else if late {
            Poll::TimedOut
        } else {
            Poll::Waiting
        }),
{
    match log {
        Some(text) => {
            if is_all_found(text, expected) {
                return Poll::Passed;
            }
        },
        None => {},
    }
    if died {
        Poll::Died
    } else if late {
        Poll::TimedOut
    } else {
        Poll::Waiting
    }
}

/// How often `text` stands in `log` from `from` on, without overlap.
pub open spec fn occurrences(log: Seq<u8>, text: Seq<u8>, from: int) -> nat
    decreases log.len() - from,
{
    match first_at(log, text, from) {
        Some(pos) => if from <= pos && pos + text.len() <= log.len() && text.len() > 0 {
            1 + occurrences(log, text, pos + text.len())
        } else {
            0
        },
        None => 0,
    }
}

/// How often `text` stands in `log`.
pub fn count_occurrences(log: &[u8], text: &[u8]) -> (r: usize)
    requires
        text@.len() > 0,
    ensures
        r == occurrences(log@, text@, 0),
{
    assert(log@.len() == log.len() && text@.len() == text.len());
    let mut from: usize = 0;
    let mut n: usize = 0;
    loop
        invariant_except_break
            n + occurrences(log@, text@, from as int) == occurrences(log@, text@, 0),
        invariant
            text@.len() > 0,
            text@.len() == text.len(),
            log@.len() == log.len(),
            n <= from <= log@.len(),
        ensures
            n == occurrences(log@, text@, 0),
        decreases log@.len() - from,
    {
        match find_from(log, text, from) {
            Some(pos) => {
                from = pos + text.len();
                n += 1;
            },
            None => {
                break;
            },
        }
    }
    n
}

/// Whether the shell waits for its first line: the log says so.
pub fn poll_prompt(log: &str, died: bool, late: bool) -> (r: Poll)
    ensures
        r == (if first_at(log.spec_bytes(), "interactive mode".spec_bytes(), 0) is Some {
            Poll::Passed
        } else if died {
            Poll::Died
        } else if late {
            Poll::TimedOut
        } else {
            Poll::Waiting
        }),
{
    if find_from(log.as_bytes(), "interactive mode".as_bytes(), 0).is_some() {
        Poll::Passed
    } else if died {
        Poll::Died
    } else if late {
        Poll::TimedOut
    } else {
        Poll::Waiting
    }
}

/// Whether a command that was typed has run: its mark shows twice, once as it
/// was typed and once as the command's output.
pub fn poll_marker(log: &str, marker: &str, late: bool) -> (r: Poll)
    requires
        marker.spec_bytes().len() > 0,
    ensures
        r == (if occurrences(log.spec_bytes(), marker.spec_bytes(), 0) >= 2 {
            Poll::Passed
        } else if late {
            Poll::TimedOut
        } else {
            Poll::Waiting
        }),
{
    if count_occurrences(log.as_bytes(), marker.as_bytes()) >= 2 {
        Poll::Passed
    } else if late {
        Poll::TimedOut
    } else {
        Poll::Waiting
    }
}

/// One line for each of the first `n` expected lines: whether it was found.
pub open spec fn status_lines(found: Seq<Option<int>>, expected: Seq<ExpectedLine>, n: nat) -> Seq<
    u8,
>
    decreases n,
{
    if n == 0 {
        Seq::empty()
    } else {
        status_lines(found, expected, (n - 1) as nat) + (if found[n - 1] is Some {
            "  ok  ".spec_bytes()
        } else {
            "MISS  ".spec_bytes()
        }) + vstd::utf8::encode_utf8(expected[n - 1].text@) + "\n".spec_bytes()
    }
}

/// Which expected lines `log` shows.
pub fn status_report(log: &str, expected: &[ExpectedLine]) -> (r: Vec<u8>)
    ensures
        r@ == status_lines(
            matched(log.spec_bytes(), expected@, expected@.len()).1,
            expected@,
            expected@.len(),
        ),
{
    let found = match_expected(log, expected);
    let ghost want = matched(log.spec_bytes(), expected@, expected@.len()).1;
    let mut out: Vec<u8> = Vec::new();
    let mut i: usize = 0;
    proof {
        lemma_found_len(log.spec_bytes(), expected@, expected@.len());
        assert(positions(found@).len() == found@.len());
    }
    while i < expected.len()
        invariant
            i <= expected@.len(),
            positions(found@) == want,
            want.len() == found@.len() == expected@.len(),
            out@ == status_lines(want, expected@, i as nat),
        decreases expected@.len() - i,
    {
        assert(positions(found@)[i as int] == want[i as int]);
        if found[i].is_some() {
            push_str(&mut out, "  ok  ");
        } else {
            push_str(&mut out, "MISS  ");
        }
        push_str(&mut out, expected[i].text.as_str());
        push_str(&mut out, "\n");
        i += 1;
    }
    out
}

proof fn lemma_found_len(log: Seq<u8>, expected: Seq<ExpectedLine>, n: nat)
    ensures
        matched(log, expected, n).1.len() == n,
    decreases n,
{
    if n > 0 {
        lemma_found_len(log, expected, (n - 1) as nat);
    }
}

/// The lines from the `from`th to before the `to`th, each but the first
/// indented on a new line.
pub open spec fn joined(c: Seq<char>, lines: Seq<(int, int)>, from: int, to: int) -> Seq<u8>
    decreases to - from,
{
    if to <= from {
        Seq::empty()
    } else {
        joined(c, lines, from, to - 1) + (if to - 1 == from {
            Seq::empty()
        } else {
            "\n  ".spec_bytes()
        }) + vstd::utf8::encode_utf8(c.subrange(lines[to - 1].0, lines[to - 1].1))
    }
}

/// The last lines of a log, at most twelve.
pub open spec fn tail_of(c: Seq<char>) -> Seq<u8> {
    let lines = lines_from(c, 0);
    let n = lines.len() as int;
    joined(
        c,
        lines,
        if n > 12 {
            n - 12
        } else {
            0
        },
        n,
    )
}

/// The last lines of a log, at most twelve.
pub fn log_tail(log: &str) -> (r: Vec<u8>)
    ensures
        r@ == tail_of(log@),
{
    let chars = chars_of(log);
    let lines = line_spans(chars.as_slice());
    let ghost all = lines_from(log@, 0);
    assert(spans(lines@).len() == lines@.len());
    let n: usize = lines.len();
    let from: usize = if n > 12 {
        n - 12
    } else {
        0
    };
    let mut out: Vec<u8> = Vec::new();
    let mut i: usize = from;
    while i < n
        invariant
            from <= i <= n,
            n == lines@.len(),
            all.len() == n,
            spans(lines@) == all,
            forall|k: int|
                0 <= k < lines@.len() ==> (#[trigger] lines@[k]).0 <= lines@[k].1 && lines@[k].1
                    <= log@.len(),
            out@ == joined(log@, all, from as int, i as int),
        decreases n - i,
    {
        let (lo, hi): (usize, usize) = lines[i];
        assert(spans(lines@)[i as int] == (lo as int, hi as int));
        if i > from {
            push_str(&mut out, "\n  ");
        }
        push_str(&mut out, log.substring_char(lo, hi));
        i += 1;
        assert(out@ =~= joined(log@, all, from as int, i as int));
    }
    out
}

/// What is said of a test that failed: why, which lines were found, and the end
/// of the log.
pub fn failure_report(cause: &str, log: &str, expected: &[ExpectedLine], path: &str) -> (r: Vec<u8>)
    ensures
        r@ == "qemu-test FAILED: ".spec_bytes() + cause.spec_bytes()
            + "\n\nexpected-line status:\n".spec_bytes() + status_lines(
            matched(log.spec_bytes(), expected@, expected@.len()).1,
            expected@,
            expected@.len(),
        ) + "\nlast serial output:\n  ".spec_bytes() + tail_of(log@)
            + "\n\nfull serial log: ".spec_bytes() + path.spec_bytes(),
{
    let mut out = bytes_of("qemu-test FAILED: ");
    push_str(&mut out, cause);
    push_str(&mut out, "\n\nexpected-line status:\n");
    let mut status = status_report(log, expected);
    out.append(&mut status);
    push_str(&mut out, "\nlast serial output:\n  ");
    let mut tail = log_tail(log);
    out.append(&mut tail);
    push_str(&mut out, "\n\nfull serial log: ");
    push_str(&mut out, path);
    out
}

/// Where every line is found, none is reported as missed.
pub proof fn passed_has_no_misses(log: Seq<u8>, expected: Seq<ExpectedLine>, i: int)
    requires
        all_found(log, expected),
        0 <= i < expected.len(),
    ensures
        matched(log, expected, expected.len()).1[i] is Some,
        status_lines(matched(log, expected, expected.len()).1, expected, (i + 1) as nat)
            == status_lines(matched(log, expected, expected.len()).1, expected, i as nat)
            + "  ok  ".spec_bytes() + vstd::utf8::encode_utf8(expected[i].text@)
            + "\n".spec_bytes(),
{
    lemma_found_len(log, expected, expected.len());
}

} // verus!
