//! Programs: the calls they make, the shell, and the tools.

use rumicos::liblow::args::args_from_stack;
use rumicos::liblow::call::{dup2, pipe_ends, wait4, wexitstatus, wifexited, SYS_WRITE};
use rumicos::liblow::exec::{execve, E2BIG, ENAMETOOLONG, MAX_ARGV};
use rumicos::liblow::fmt::{
    eprintln, i64_to_str, write_all, write_all_next, write_parts, WriteStep,
};
use rumicos::proc::wait::encode_exit_status;
use rumicos::shell::exec::{
    child_setup_and_exec, execute_pipeline, ChildFailure, ChildStep, PipeFds, RunAction, ShellOp, EXIT_NOT_FOUND,
};
use rumicos::shell::input::{read_line, Echo, LINE_BUF_SIZE};
use rumicos::shell::parse::{
    parse_line, ParseError, Pipeline, RedirectKind, Stage, MAX_ARGS, MAX_PIPELINE_STAGES,
};
use rumicos::shell::repl::{repl, ReplAction};
use rumicos::shell::selftest::{file_matches, report, run, SelfTestStep, SELFTEST_SCRIPT};
use rumicos::tools::cat::{cannot_open, cat_exit_code, cat_fd, cat_source, CatSource, CatStep};
use rumicos::tools::echo::echo;

#[test]
fn i64_to_str_zero() {
    let mut b = [0u8; 24];
    assert_eq!(i64_to_str(0, &mut b), "0");
}

#[test]
fn i64_to_str_positive() {
    let mut b = [0u8; 24];
    assert_eq!(i64_to_str(12345, &mut b), "12345");
}

#[test]
fn i64_to_str_negative() {
    let mut b = [0u8; 24];
    assert_eq!(i64_to_str(-42, &mut b), "-42");
    assert_eq!(&b[21..], b"-42");
    assert!(b[..21].iter().all(|c| *c == 0));
}

#[test]
fn i64_to_str_min_does_not_overflow() {
    let mut b = [0u8; 24];
    assert_eq!(i64_to_str(i64::MIN, &mut b), "-9223372036854775808");
}

#[test]
fn single_command_with_arg() {
    let p = parse_line("echo hi").unwrap();
    assert_eq!(p.stage_count, 1);
    assert_eq!(p.stages[0].argc, 2);
    assert_eq!(p.stages[0].args(), &["echo", "hi"]);
    assert_eq!(p.stages[0].redirect_out, None);
    assert_eq!(p.stages[0].redirect_in, None);
}

#[test]
fn empty_line_is_empty_error() {
    assert_eq!(parse_line(""), Err(ParseError::Empty));
}

#[test]
fn whitespace_only_is_empty_error() {
    assert_eq!(parse_line("   "), Err(ParseError::Empty));
    assert_eq!(parse_line(" \t \r "), Err(ParseError::Empty));
}

#[test]
fn three_stage_pipeline() {
    let p = parse_line("a | b | c").unwrap();
    assert_eq!(p.stage_count, 3);
    assert_eq!(p.stages[0].args(), &["a"]);
    assert_eq!(p.stages[1].args(), &["b"]);
    assert_eq!(p.stages[2].args(), &["c"]);
}

#[test]
fn trailing_pipe_is_error() {
    assert_eq!(parse_line("a |"), Err(ParseError::TrailingPipe));
    assert_eq!(parse_line("a |   "), Err(ParseError::TrailingPipe));
}

#[test]
fn empty_stage_between_pipes_is_error() {
    assert_eq!(parse_line("a | | b"), Err(ParseError::EmptyStage));
}

#[test]
fn leading_pipe_is_empty_stage() {
    assert_eq!(parse_line("| b"), Err(ParseError::EmptyStage));
}

#[test]
fn redirect_out_with_spaces() {
    let p = parse_line("a > out.txt").unwrap();
    assert_eq!(p.stages[0].redirect_out, Some(("out.txt", RedirectKind::Out)));
    assert_eq!(p.stages[0].args(), &["a"]);
}

#[test]
fn redirect_out_without_spaces_tokenizes_the_same() {
    let spaced = parse_line("a > out.txt").unwrap();
    let tight = parse_line("a>out.txt").unwrap();
    assert_eq!(tight.stages[0].redirect_out, Some(("out.txt", RedirectKind::Out)));
    assert_eq!(tight.stages[0].args(), &["a"]);
    assert_eq!(spaced, tight);
}

#[test]
fn append_redirect_is_distinct_from_truncate() {
    let p = parse_line("a >> out.txt").unwrap();
    assert_eq!(p.stages[0].redirect_out, Some(("out.txt", RedirectKind::OutAppend)));
    let tight = parse_line("a>>out.txt").unwrap();
    assert_eq!(tight.stages[0].redirect_out, Some(("out.txt", RedirectKind::OutAppend)));
}

#[test]
fn redirect_in() {
    let p = parse_line("a < in.txt").unwrap();
    assert_eq!(p.stages[0].redirect_in, Some("in.txt"));
    assert_eq!(p.stages[0].args(), &["a"]);
    let tight = parse_line("a<in.txt").unwrap();
    assert_eq!(tight.stages[0].redirect_in, Some("in.txt"));
}

#[test]
fn redirect_without_target_is_error() {
    assert_eq!(parse_line("a >"), Err(ParseError::MissingRedirectTarget));
    assert_eq!(parse_line("a <"), Err(ParseError::MissingRedirectTarget));
    assert_eq!(parse_line("a >>"), Err(ParseError::MissingRedirectTarget));
    assert_eq!(parse_line("a > | b"), Err(ParseError::MissingRedirectTarget));
}

#[test]
fn too_many_stages_is_error() {
    let ok = "a | a | a | a | a | a | a | a";
    assert_eq!(parse_line(ok).unwrap().stage_count, MAX_PIPELINE_STAGES);
    let too_many = "a | a | a | a | a | a | a | a | a";
    assert_eq!(parse_line(too_many), Err(ParseError::TooManyStages));
}

#[test]
fn too_many_args_is_error() {
    let ok = "a b c d e f g h i j k l m n o p";
    assert_eq!(parse_line(ok).unwrap().stages[0].argc, MAX_ARGS);
    let too_many = "a b c d e f g h i j k l m n o p q";
    assert_eq!(parse_line(too_many), Err(ParseError::TooManyArgs));
}

#[test]
fn middle_stage_can_have_both_pipe_input_and_explicit_redirect_in() {
    let p = parse_line("a | b < in.txt | c").unwrap();
    assert_eq!(p.stage_count, 3);
    assert_eq!(p.stages[1].args(), &["b"]);
    assert_eq!(p.stages[1].redirect_in, Some("in.txt"));
    assert_eq!(p.stages[0].redirect_in, None);
    assert_eq!(p.stages[2].redirect_in, None);
}

#[test]
fn round_trip_against_hand_built_pipeline() {
    let parsed = parse_line("  /bin/echo hi   |  /bin/cat > /tmp/o.txt ").unwrap();

    let mut s0 = Stage::empty();
    s0.argv[0] = "/bin/echo";
    s0.argv[1] = "hi";
    s0.argc = 2;

    let mut s1 = Stage::empty();
    s1.argv[0] = "/bin/cat";
    s1.argc = 1;
    s1.redirect_out = Some(("/tmp/o.txt", RedirectKind::Out));

    let mut expected = Pipeline { stages: [Stage::empty(); MAX_PIPELINE_STAGES], stage_count: 2 };
    expected.stages[0] = s0;
    expected.stages[1] = s1;

    assert_eq!(parsed, expected);
    assert_eq!(parsed.stages(), expected.stages());
}

#[test]
fn redirects_can_precede_and_follow_args() {
    let p = parse_line("< in.txt a b > out.txt").unwrap();
    assert_eq!(p.stages[0].args(), &["a", "b"]);
    assert_eq!(p.stages[0].redirect_in, Some("in.txt"));
    assert_eq!(p.stages[0].redirect_out, Some(("out.txt", RedirectKind::Out)));
}

#[test]
fn redirection_only_stage_is_empty_stage_error() {
    assert_eq!(parse_line("> out.txt"), Err(ParseError::EmptyStage));
}

#[test]
fn extra_whitespace_is_ignored() {
    let p = parse_line("   a    b  |   c   ").unwrap();
    assert_eq!(p.stage_count, 2);
    assert_eq!(p.stages[0].args(), &["a", "b"]);
    assert_eq!(p.stages[1].args(), &["c"]);
}

#[test]
fn last_redirect_of_a_kind_wins() {
    let p = parse_line("a > one.txt > two.txt").unwrap();
    assert_eq!(p.stages[0].redirect_out, Some(("two.txt", RedirectKind::Out)));
}

#[test]
fn parse_error_messages_are_non_empty() {
    for e in [
        ParseError::Empty,
        ParseError::TooManyStages,
        ParseError::TooManyArgs,
        ParseError::EmptyStage,
        ParseError::MissingRedirectTarget,
        ParseError::TrailingPipe,
    ] {
        assert!(!e.message().is_empty());
    }
}

#[test]
fn pipeline_of_two_is_run_and_its_last_code_counts() {
    let (mut job, first) = execute_pipeline(2);
    assert_eq!(first, RunAction::MakePipe);
    let step = job.pipe_made(Ok((3, 4)));
    assert_eq!(step.next, RunAction::Fork(0));
    assert_eq!(job.forked(10).next, RunAction::Fork(1));
    let step = job.forked(11);
    assert_eq!(step.next, RunAction::Wait);
    assert_eq!(step.ops, vec![ShellOp::Close(3), ShellOp::Close(4)]);
    assert_eq!(job.waited(11, 5 << 8), RunAction::Wait);
    assert_eq!(job.waited(10, 0), RunAction::Finish(5));
}

#[test]
fn pipe_that_cannot_be_made_ends_the_pipeline() {
    let (mut job, _) = execute_pipeline(3);
    let step = job.pipe_made(Ok((3, 4)));
    assert_eq!(step.next, RunAction::MakePipe);
    let step = job.pipe_made(Err(-24));
    assert!(step.ops.contains(&ShellOp::PipeFailed));
    assert!(step.ops.contains(&ShellOp::Close(3)));
    assert!(matches!(step.next, RunAction::Finish(_)));
}

#[test]
fn child_joins_its_pipes_and_files() {
    let p = parse_line("a | b < in > out").unwrap();
    let pipes = vec![PipeFds { read: 3, write: 4 }];
    let steps = child_setup_and_exec(&p.stages[1], 1, 2, &pipes);
    assert!(matches!(steps[0], ChildStep::Dup { from: 3, to: 0, .. }));
    let mut opened: Vec<(&str, u32, i32)> = Vec::new();
    for s in &steps {
        if let ChildStep::Redirect { path, flags, to, .. } = s {
            opened.push((*path, *flags, *to));
        }
    }
    assert_eq!(opened, vec![("in", 0, 0), ("out", 577, 1)]);
    assert!(matches!(steps[steps.len() - 1], ChildStep::Exec));
    assert_eq!(ChildFailure::NotFound.exit_code(), EXIT_NOT_FOUND);
    assert!(!ChildFailure::NotFound.message().is_empty());
}

#[test]
fn line_is_edited_as_it_is_typed() {
    let mut buf = [0u8; LINE_BUF_SIZE];
    let mut len: usize = 0;
    for c in b"lx" {
        let (echo, done) = read_line(&mut buf, &mut len, *c);
        assert_eq!(echo, Echo::Byte(*c));
        assert!(!done);
    }
    assert_eq!(read_line(&mut buf, &mut len, 0x7f), (Echo::Rubout, false));
    assert_eq!(Echo::Rubout.bytes(), b"\x08 \x08".to_vec());
    read_line(&mut buf, &mut len, b's');
    let (echo, done) = read_line(&mut buf, &mut len, b'\n');
    assert_eq!(echo, Echo::Newline);
    assert!(done);
    assert_eq!(&buf[..len], b"ls");
    let mut empty: usize = 0;
    assert_eq!(read_line(&mut buf, &mut empty, 8), (Echo::Nothing, false));
    assert_eq!(empty, 0);
}

#[test]
fn full_line_is_complete() {
    let mut buf = [0u8; LINE_BUF_SIZE];
    let mut len: usize = 0;
    for i in 0..LINE_BUF_SIZE {
        let c = b'a' + (i % 26) as u8;
        assert_eq!(read_line(&mut buf, &mut len, c), (Echo::Byte(c), i == 255));
    }
    assert_eq!(len, 256);
    for (i, c) in buf.iter().enumerate() {
        assert_eq!(*c, b'a' + (i % 26) as u8);
    }
    // A line that is full already refuses the byte.
    assert_eq!(read_line(&mut buf, &mut len, b'z'), (Echo::Bell, true));
    assert_eq!(Echo::Bell.bytes(), vec![7]);
    assert_eq!(len, 256);
}

#[test]
fn lines_are_run_or_complained_of() {
    assert!(matches!(repl(b""), ReplAction::Prompt));
    assert!(matches!(repl(b"a |"), ReplAction::Complain(ParseError::TrailingPipe)));
    assert!(matches!(repl(&[0xff, 0xfe]), ReplAction::NotText));
    match repl(b"/bin/echo hi") {
        ReplAction::Run(p) => assert_eq!(p.stages[0].args(), &["/bin/echo", "hi"]),
        _ => panic!("the line can be run"),
    }
}

#[test]
fn self_test_runs_its_six_steps() {
    let mut t = run();
    assert_eq!(
        t.step(),
        SelfTestStep::Run { line: "/bin/echo hello pipeline", what: "echo" }
    );
    assert_eq!(SELFTEST_SCRIPT.len(), 5);
    assert!(SELFTEST_SCRIPT.iter().all(|line| parse_line(line).is_ok()));
    for _ in 0..6 {
        assert!(!matches!(t.step(), SelfTestStep::Done(_)));
        t.passed(true);
    }
    assert_eq!(t.step(), SelfTestStep::Done(true));
    assert_eq!(report(true, "echo"), b"shell: ok echo\n".to_vec());
    assert_eq!(report(false, "echo"), b"shell: FAIL echo\n".to_vec());
    assert!(file_matches(3, 4, b"abcd", b"abcd"));
    assert!(!file_matches(3, 4, b"abcd", b"abce"));
    assert!(!file_matches(-2, 4, b"abcd", b"abcd"));
}

#[test]
fn exit_codes_are_read_back_from_the_status() {
    let status = encode_exit_status(42) as i32;
    assert!(wifexited(status));
    assert_eq!(wexitstatus(status), 42);
    assert!(!wifexited(9));
}

#[test]
fn calls_carry_their_arguments() {
    let c = rumicos::liblow::call::write(1, 0x1000, 5);
    assert_eq!(c.nr, SYS_WRITE);
    assert_eq!(c.a1, 1);
    assert_eq!(c.a3, 5);
    assert_eq!(dup2(-1, 1).a1, (-1i32) as i64 as u64);
    assert_eq!(wait4(-1, 0).a1, u64::MAX);
    assert_eq!(pipe_ends(0, [3, 4]), Ok((3, 4)));
    assert_eq!(pipe_ends(-24, [3, 4]), Err(-24));
}

#[test]
fn exec_refuses_what_does_not_fit() {
    let image = execve("/bin/echo", &["echo", "hi"]).unwrap_or_else(|_| panic!("it fits"));
    assert_eq!(image.path.len(), 256);
    assert_eq!(&image.path[..10], b"/bin/echo\0");
    assert_eq!(image.args.len(), 2);
    assert_eq!(&image.args[1][..3], b"hi\0");
    let long = "x".repeat(256);
    assert_eq!(execve(&long, &[]).err(), Some(ENAMETOOLONG));
    let many = ["x"; MAX_ARGV + 1];
    assert_eq!(execve("/bin/echo", &many).err(), Some(E2BIG));
}

#[test]
fn output_is_written_to_its_end() {
    assert_eq!(write_all(0), WriteStep::Done(true));
    assert_eq!(write_all(10), WriteStep::Write { from: 0 });
    assert_eq!(write_all_next(10, 0, 4), WriteStep::Write { from: 4 });
    assert_eq!(write_all_next(10, 4, 6), WriteStep::Done(true));
    assert_eq!(write_all_next(10, 4, -5), WriteStep::Done(false));
    let out = rumicos::liblow::fmt::println("hi");
    assert_eq!(out[0].fd, 1);
    assert_eq!(out[0].bytes, b"hi".to_vec());
    assert_eq!(out[1].bytes, b"\n".to_vec());
    assert_eq!(eprintln("no")[0].fd, 2);
    assert_eq!(write_parts(1, &["a", "b"]).len(), 3);
}

#[test]
fn arguments_are_read_from_the_stack() {
    let mut w = vec![0u8; 64];
    w[0..8].copy_from_slice(&2u64.to_le_bytes());
    w[8..16].copy_from_slice(&(0x1000u64 + 40).to_le_bytes());
    w[16..24].copy_from_slice(&(0x1000u64 + 45).to_le_bytes());
    w[40..45].copy_from_slice(b"echo\0");
    w[45..48].copy_from_slice(b"hi\0");
    let args = args_from_stack(&w, 0x1000);
    assert_eq!(args.len(), 2);
    assert!(!args.is_empty());
    assert_eq!(args.all()[0], b"echo".to_vec());
    assert_eq!(args.rest()[0], b"hi".to_vec());
}

#[test]
fn echo_and_cat() {
    assert_eq!(echo(&[b"a".to_vec(), b"b".to_vec()]), b"a b\n".to_vec());
    assert_eq!(echo(&[]), b"\n".to_vec());
    assert_eq!(cat_source(&[]), CatSource::StandardInput);
    assert_eq!(cat_source(&[b"f".to_vec()]), CatSource::FirstArgument);
    assert_eq!(cat_fd(0), CatStep::Done(true));
    assert_eq!(cat_fd(-5), CatStep::Done(false));
    assert_eq!(cat_fd(7), CatStep::Write(7));
    assert_eq!(cat_exit_code(true), 0);
    assert_eq!(cat_exit_code(false), 1);
    assert!(cannot_open(b"/x").ends_with(b"/x\n"));
}
