# Rumicos

The logic of a small x86-64 kernel, its programs and its build tool, written in
Rust and proved with Verus.

`src/` is the library. Every item in it is verified, and what touches the
machine is a value: a request in a log, a register to write, the thread to run
next.

- `proc` - processes, address spaces, copy-on-write, signals, descriptors,
  `fork`, `clone`, `execve`, `wait4`, the system calls and the page faults.
  `proc::state::Kernel` holds the whole state, and `Kernel::wf` is the invariant
  that every operation keeps.
- `sched` - the run queues of the CPUs, stealing, blocking, futexes.
- `sync` - locks.
- `smp` - the ACPI tables and the start of the other CPUs.
- `virtio` - the network device: its registers, queues and packets.
- `kernel` - the order of the start, the boot loader's answers, the console.
- `liblow`, `tools`, `shell` - what the programs compute: the calls they make,
  their arguments, command lines and pipelines.
- `xtask` - the archive that the system starts with, and judging what a machine
  shows.
- `repro` - aggregate copies that a compiler once broke, and a search for such
  code.
- `mem`, `paging`, `bits`, `bytes`, `text`, `lines` - what the others share.

Laws that relate several functions stand as public proof functions beside them;
their doc comments state them in words. Two calls into the standard library are
believed and not proved: `proc::usermem::text_of` and
`xtask::serial::decode_lossy` say what of them.

`tests/` runs the library. `app/` is ordinary Rust around it: the command-line
tool, the interrupt and system-call entries, the loops of the programs, and the
instructions that only a processor can carry out.
