//! Building images, judging a start, and the table copies.

use rumicos::repro::cases::{
    case_a_snapshot_guard_u32_32, case_b_clone_guard_u32_32, case_c_slot_store_file_vma,
    case_d_slot_store_int_vma, case_e_local_array_copy, case_f_snapshot_guard_u32_16,
    case_f_snapshot_guard_u32_64, case_f_snapshot_guard_u32_8, case_h_vmas_whole_copy,
    case_i_sigtable_guard_copy, case_j_fdtable_clone_for_fork, case_k_placement_write_struct,
    case_l_fork_name_copy, corrupted, expect_u32, verdict_line,
};
use rumicos::repro::scan::{finding_report, is_readable, parse_disp_base, scan};
use rumicos::repro::tables::{
    AddrSpaceR, BackingR, FdTableR, IntAddrSpaceR, ProcessF, ProcessR, SigActionR, SigTableR, StateR,
};
use rumicos::sync::spin::SpinLock;
use rumicos::xtask::cpio::{cpio_newc_record, mkinitrd, Member};
use rumicos::xtask::expected::{match_expected, parse_expected};
use rumicos::xtask::keys::sendkey_tokens;
use rumicos::xtask::qemu::{
    accelerator, count_occurrences, failure_report, is_all_found, log_tail, poll_boot, poll_marker,
    poll_prompt, qemu_common_args, status_report, Poll,
};
use rumicos::xtask::serial::{strip_escapes, strip_serial_noise};

#[test]
fn parse_expected_skips_comments_and_blanks_and_reads_unordered_prefix() {
    let spec = "# header comment\n\nfirst line\n~ maybe later\nsecond line\n";
    let parsed = parse_expected(spec);
    assert_eq!(parsed.len(), 3);
    assert_eq!(parsed[0].text, "first line");
    assert!(!parsed[0].unordered);
    assert_eq!(parsed[1].text, "maybe later");
    assert!(parsed[1].unordered);
    assert_eq!(parsed[2].text, "second line");
}

#[test]
fn match_expected_is_order_sensitive() {
    let expected = parse_expected("alpha\nbeta\n");
    let wrong_order = match_expected("noise beta noise alpha end", &expected);
    assert!(wrong_order[0].is_some(), "alpha present");
    assert!(wrong_order[1].is_none(), "beta before alpha must not count");

    let right_order = match_expected("x alpha y beta z", &expected);
    assert!(right_order.iter().all(Option::is_some));
}

#[test]
fn match_expected_matches_substrings_not_full_lines() {
    let expected = parse_expected("execve works!\n");
    let log = "limine: Loading executable `boot():/kernel.elf`...KCLNE\nexecve works!\n";
    assert!(match_expected(log, &expected)[0].is_some());
}

#[test]
fn unordered_lines_tolerate_scheduler_interleaving() {
    let expected = parse_expected("start\n~child: one\n~parent: one\nend of file\n");
    let child_first = "start\nchild: one\nparent: one\nend of file\n";
    let parent_first = "start\nparent: one\nchild: one\nend of file\n";
    assert!(match_expected(child_first, &expected).iter().all(Option::is_some));
    assert!(match_expected(parent_first, &expected).iter().all(Option::is_some));
    let too_early = "child: one\nstart\nparent: one\nend of file\n";
    let m = match_expected(too_early, &expected);
    assert!(m[1].is_none(), "unordered line before its anchor must miss");
}

#[test]
fn strip_serial_noise_removes_csi_and_cr() {
    let raw = b"\x1b[2J\x1b[01;01H\x1b[=3hHello\r\nworld";
    assert_eq!(strip_serial_noise(raw), "Hello\nworld");
}

#[test]
fn bytes_that_are_no_text_are_replaced() {
    assert_eq!(strip_serial_noise(&[b'a', 0xff, b'b']), "a\u{fffd}b");
    assert_eq!(strip_serial_noise("gr\u{fc}n\n".as_bytes()), "gr\u{fc}n\n");
    assert_eq!(strip_escapes("plain"), "plain");
}

#[test]
fn cpio_newc_record_has_valid_header_and_padding() {
    let mut out = Vec::new();
    cpio_newc_record(&mut out, b"ab", 0o100644, &[0xDE, 0xAD, 0xBE]);
    assert_eq!(&out[0..6], b"070701");
    assert_eq!(&out[14..22], b"000081A4");
    assert_eq!(&out[54..62], b"00000003");
    assert_eq!(&out[94..102], b"00000003");
    assert_eq!(&out[110..113], b"ab\0");
    assert_eq!(&out[113..116], &[0, 0, 0]);
    assert_eq!(&out[116..119], &[0xDE, 0xAD, 0xBE]);
    assert_eq!(out.len(), 120);
}

#[test]
fn cpio_newc_trailer_record_is_recognizable() {
    let mut out = Vec::new();
    cpio_newc_record(&mut out, b"TRAILER!!!", 0, &[]);
    assert_eq!(&out[0..6], b"070701");
    assert_eq!(&out[54..62], b"00000000");
    assert_eq!(&out[110..121], b"TRAILER!!!\0");
}

#[test]
fn archive_holds_directories_files_and_trailer() {
    let file = Member { name: b"init2.elf".to_vec(), mode: 0o100755, data: vec![1, 2, 3] };
    let out = mkinitrd(&[file]);
    assert_eq!(out.len() % 4, 0);
    assert_eq!(&out[110..114], b"tmp\0");
    assert_eq!(&out[14..22], b"000041ED");
    let mut again = Vec::new();
    cpio_newc_record(&mut again, b"tmp", 0o040755, &[]);
    cpio_newc_record(&mut again, b"bin", 0o040755, &[]);
    cpio_newc_record(&mut again, b"init2.elf", 0o100755, &[1, 2, 3]);
    cpio_newc_record(&mut again, b"TRAILER!!!", 0, &[]);
    assert_eq!(out, again);
}

#[test]
fn keys_of_a_command() {
    let k = sendkey_tokens("/bin/e2-A.");
    assert_eq!(k.tokens, vec!["slash", "b", "i", "n", "slash", "e", "2", "minus", "dot"]);
    assert_eq!(k.skipped, vec!['A']);
    assert_eq!(sendkey_tokens(" ").tokens, vec!["spc"]);
}

#[test]
fn accelerator_of_the_machine() {
    assert_eq!(accelerator(true, 128).accel, b"kvm".to_vec());
    assert_eq!(accelerator(true, 128).cpu, b"host".to_vec());
    assert_eq!(accelerator(false, 128).accel, b"tcg,tb-size=128".to_vec());
    assert_eq!(accelerator(false, 128).name, b"tcg".to_vec());
    let args = qemu_common_args("q35", "max", "2G", "/ovmf", "run/esp");
    assert_eq!(args.len(), 22);
    assert_eq!(args[13], b"if=pflash,format=raw,read-only=on,file=/ovmf".to_vec());
    assert_eq!(args[15], b"format=raw,file=fat:run/esp,snapshot=on".to_vec());
}

#[test]
fn start_is_judged_by_its_log() {
    let expected = parse_expected("one\ntwo\n");
    assert!(is_all_found("one two", &expected));
    assert_eq!(poll_boot(Some("one two"), &expected, true, true), Poll::Passed);
    assert_eq!(poll_boot(Some("one"), &expected, true, true), Poll::Died);
    assert_eq!(poll_boot(None, &expected, false, true), Poll::TimedOut);
    assert_eq!(poll_boot(Some("one"), &expected, false, false), Poll::Waiting);
    assert_eq!(poll_prompt("shell: interactive mode", true, true), Poll::Passed);
    assert_eq!(poll_prompt("", false, false), Poll::Waiting);
    assert_eq!(count_occurrences(b"aaaa", b"aa"), 2);
    assert_eq!(poll_marker("kbdok kbdok", "kbdok", true), Poll::Passed);
    assert_eq!(poll_marker("kbdok", "kbdok", true), Poll::TimedOut);
    assert_eq!(status_report("one", &expected), b"  ok  one\nMISS  two\n".to_vec());
    let long: Vec<String> = (0..20).map(|i| format!("l{i}")).collect();
    let tail = String::from_utf8(log_tail(&long.join("\n"))).unwrap();
    assert!(tail.starts_with("l8\n  l9"));
    let failed = String::from_utf8(failure_report("hung", "one", &expected, "log")).unwrap();
    assert!(failed.starts_with("qemu-test FAILED: hung\n\nexpected-line status:\n  ok  one\n"));
    assert!(failed.ends_with("full serial log: log"));
}

#[test]
fn copies_of_number_tables_are_whole() {
    for seed in [1u32, 0x1234_5678, 0xDEAD_BEEF, 0x0BAD_F00D, u32::MAX] {
        let mut a = SpinLock::new([0u32; 32]);
        assert_eq!(case_a_snapshot_guard_u32_32(&mut a, seed), 0);
        assert_eq!(a.value[5], expect_u32(seed, 5));
        assert_eq!(case_b_clone_guard_u32_32(&mut a, seed), 0);
        let mut e = [0u32; 32];
        assert_eq!(case_e_local_array_copy(&mut e, seed), 0);
        assert_eq!(case_f_snapshot_guard_u32_8(&mut SpinLock::new([0; 8]), seed), 0);
        assert_eq!(case_f_snapshot_guard_u32_16(&mut SpinLock::new([0; 16]), seed), 0);
        assert_eq!(case_f_snapshot_guard_u32_64(&mut SpinLock::new([0; 64]), seed), 0);
        e[3] ^= 0xff00;
        e[30] ^= 2;
        assert_eq!(corrupted(&e, seed), 2);
    }
}

fn blank_space() -> AddrSpaceR {
    AddrSpaceR { pml4_phys: 9, pcid: 9, vmas: [None; 32], mmap_next: 9 }
}

fn blank_process() -> ProcessF {
    ProcessF {
        pid: 0,
        state: StateR::Zombie,
        exit_code: 0,
        address_space: 0,
        thread: 0,
        name: [0xaa; 16],
        user_rip: 0,
        user_rsp: 0,
        user_rflags: 0,
        user_rax: 0,
        children: SpinLock::new([0xaa; 32]),
        child_count: 9,
    }
}

#[test]
fn copies_of_structures_are_whole() {
    for seed in [1u32, 0x1234_5678, 0xDEAD_BEEF, 0x0BAD_F00D, u32::MAX] {
        let mut space = blank_space();
        assert_eq!(case_c_slot_store_file_vma(&mut space, seed), 0);
        assert!(matches!(space.vmas[4].unwrap().backing, BackingR::File { shared: true, .. }));
        let mut ints = IntAddrSpaceR { pml4_phys: 0, pcid: 0, vmas: [None; 32], mmap_next: 0 };
        assert_eq!(case_d_slot_store_int_vma(&mut ints, seed), 0);
        let mut child = blank_space();
        assert_eq!(case_h_vmas_whole_copy(&mut space, &mut child, seed), 0);
        assert_eq!(child.vmas, space.vmas);
        assert_eq!(child.pcid, 2);
        let mut sig = SpinLock::new(SigTableR { actions: [SigActionR::Default; 32] });
        assert_eq!(case_i_sigtable_guard_copy(&mut sig, seed), 0);
        assert_eq!(sig.value.actions[1], SigActionR::Ignore);
        let mut fds = SpinLock::new(FdTableR::new());
        assert_eq!(case_j_fdtable_clone_for_fork(&mut fds, seed), 0);
        assert!(fds.value.fds[4].is_none());
        let mut p = ProcessR {
            pid: 0,
            state: 0,
            name: [0xaa; 16],
            user_rip: 0,
            user_rsp: 0,
            children: SpinLock::new([0xaa; 32]),
            child_count: 9,
        };
        assert_eq!(case_k_placement_write_struct(&mut p, seed), 0);
        assert_eq!(p.name[0], b'r');
        let mut parent = blank_process();
        let mut forked = blank_process();
        assert_eq!(case_l_fork_name_copy(&mut parent, &mut forked, seed), 0);
        assert_eq!(forked.name, parent.name);
        assert_eq!(forked.pid, seed.wrapping_add(1));
    }
    assert_eq!(verdict_line("x", 0), b"PASS       x".to_vec());
    assert_eq!(verdict_line("x", 2), b"CORRUPTED  x  (2 bad elements, worst seed)".to_vec());
}

fn chars(s: &str) -> Vec<char> {
    s.chars().collect()
}

#[test]
fn operands_are_read() {
    let c = chars("0x86e(%rsp)");
    let d = parse_disp_base(&c, 0, c.len()).unwrap();
    assert_eq!(d.disp, 0x86e);
    assert_eq!(c[d.lo..d.hi].iter().collect::<String>(), "%rsp");
    let c = chars("-0x30(%rcx)");
    assert_eq!(parse_disp_base(&c, 0, c.len()).unwrap().disp, -0x30);
    let c = chars("(%rax)");
    assert_eq!(parse_disp_base(&c, 0, c.len()).unwrap().disp, 0);
    let c = chars("12(%rax)");
    assert_eq!(parse_disp_base(&c, 0, c.len()).unwrap().disp, 12);
    let c = chars("%rax");
    assert!(parse_disp_base(&c, 0, c.len()).is_none());
    let c = chars("0xzz(%rax)");
    assert!(parse_disp_base(&c, 0, c.len()).is_none());
    let c = chars("0xffffffffffffffffff(%rax)");
    assert!(parse_disp_base(&c, 0, c.len()).is_none());
}

#[test]
fn runs_of_byte_stores_two_apart_are_found() {
    let text = "ffffffff80013d60 <copy>:\n\
        ffffffff80013d61:       \tmovb\t%al, 0x20(%rsp)\n\
        ffffffff80013d65:       \tmovzbl\t0x2(%rdi), %eax\n\
        ffffffff80013d69:       \tmovb\t%al, 0x22(%rsp)\n\
        ffffffff80013d6d:       \tmovb\t%al, 0x24(%rsp)\n\
        ffffffff80013d71 <zero>:\n\
        ffffffff80013d71:       \tmovb\t$0x0, 0x20(%rsp)\n\
        ffffffff80013d75:       \tmovb\t%al, 0x21(%rsp)\n\
        ffffffff80013d79:       \tmovb\t%al, 0x22(%rsp)\n";
    let found = scan(text);
    assert_eq!(found.len(), 1);
    assert_eq!(found[0].func, "copy");
    assert_eq!(found[0].base, "%rsp");
    assert_eq!(found[0].addr, "ffffffff80013d61");
    assert_eq!(found[0].offsets, vec![0x20, 0x22, 0x24]);
    let report = String::from_utf8(finding_report(&found[0])).unwrap();
    assert_eq!(
        report,
        "SUSPECT stride-2 byte-store run (3 stores) in\n  copy\n  base (%rsp), offsets: 0x20 0x22 0x24\n  first at ffffffff80013d61\n\n"
    );
    assert!(scan("").is_empty());
}

#[test]
fn stores_of_a_run_have_few_lines_between_them() {
    let listing = |between: usize| {
        let mut text = String::from("80 <copy>:\n");
        for disp in ["0x20", "0x22", "0x24"] {
            text.push_str(&format!("81:\tmovb\t%al, {disp}(%rsp)\n"));
            for _ in 0..between {
                text.push_str("82:\tnop\n");
            }
        }
        text
    };
    assert_eq!(scan(&listing(3)).len(), 1);
    assert!(scan(&listing(4)).is_empty());
}

#[test]
fn brackets_out_of_order_cannot_be_read() {
    assert!(is_readable("80:\tmovb\t%al, 0x20(%rsp)\n"));
    assert!(is_readable("80:\tmovl\t%eax, )0x20(\n"));
    assert!(!is_readable("80:\tmovb\t%al, )0x20(\n"));
    assert!(is_readable(""));
}

#[test]
fn names_of_any_length_are_padded() {
    for n in 1..10 {
        let mut out = Vec::new();
        let name = vec![b'n'; n];
        cpio_newc_record(&mut out, &name, 0o100644, b"data");
        let at = (111 + n).div_ceil(4) * 4;
        assert_eq!(out.len(), at + 4);
        assert_eq!(&out[110..110 + n], &name[..]);
        assert!(out[110 + n..at].iter().all(|b| *b == 0));
        assert_eq!(&out[at..], b"data");
    }
}
