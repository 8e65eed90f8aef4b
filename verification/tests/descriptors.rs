//! Open files of a process.

use rumicos::proc::effects::Effect;
use rumicos::proc::fd::{FdTable, MAX_FDS, O_RDONLY, O_RDWR, O_WRONLY};

#[test]
fn fd_table_new_all_none() {
    let table = FdTable::new();
    for i in 0..MAX_FDS {
        assert!(table.get(i as i32).is_none(), "slot {i} should be empty");
    }
}

#[test]
fn fd_table_default_matches_new() {
    let table = FdTable::default();
    for i in 0..MAX_FDS {
        assert!(table.get(i as i32).is_none(), "default-constructed slot {i} should be empty");
    }
}

#[test]
fn fd_table_alloc_get_close_roundtrip() {
    let mut table = FdTable::new();
    let fd = table.alloc_fd(0x1000, 1);
    assert!(fd >= 0, "alloc should succeed");
    let e = table.get(fd).expect("get should return entry");
    assert_eq!(e.vnode_ptr, 0x1000);
    assert_eq!(e.flags, 1);
    assert_eq!(table.close(fd), 0);
    assert!(table.get(fd).is_none(), "slot should be empty after close");
}

#[test]
fn fd_table_emfile_on_full() {
    let mut table = FdTable::new();
    for _ in 0..MAX_FDS {
        let fd = table.alloc_fd(0x1000, 0);
        assert!(fd >= 0);
    }
    assert_eq!(table.alloc_fd(0x1000, 0), -24, "65th alloc must return EMFILE");
}

#[test]
fn fd_table_ebadf_on_invalid() {
    let mut table = FdTable::new();
    assert_eq!(table.close(0), -9, "closing empty slot must be EBADF");
    assert!(table.get(-1).is_none());
}

#[test]
fn stdin_stdout_stderr_constants_have_linux_values() {
    assert_eq!(O_RDONLY, 0, "O_RDONLY must be 0 (Linux ABI)");
    assert_eq!(O_WRONLY, 1, "O_WRONLY must be 1 (Linux ABI)");
    assert_eq!(O_RDWR, 2, "O_RDWR must be 2 (Linux ABI)");
}

#[test]
fn fd_can_read_rdonly() {
    let mut t = FdTable::new();
    let fd = t.alloc_fd(0x1000, O_RDONLY);
    let e = t.get(fd).unwrap();
    assert!(e.can_read(), "O_RDONLY fd must be readable");
    assert!(!e.can_write(), "O_RDONLY fd must not be writable");
}

#[test]
fn fd_can_write_wronly() {
    let mut t = FdTable::new();
    let fd = t.alloc_fd(0x1000, O_WRONLY);
    let e = t.get(fd).unwrap();
    assert!(!e.can_read(), "O_WRONLY fd must not be readable");
    assert!(e.can_write(), "O_WRONLY fd must be writable");
}

#[test]
fn fd_rdwr_allows_both() {
    let mut t = FdTable::new();
    let fd = t.alloc_fd(0x1000, O_RDWR);
    let e = t.get(fd).unwrap();
    assert!(e.can_read(), "O_RDWR fd must be readable");
    assert!(e.can_write(), "O_RDWR fd must be writable");
}

#[test]
fn clone_for_fork_preserves_entries() {
    let mut log: Vec<Effect> = Vec::new();
    let mut t = FdTable::new();
    let fd = t.alloc_fd(0xfeed, O_RDWR);
    t.get_mut(fd).unwrap().offset = 42;
    let child = t.clone_for_fork(&mut log);
    let e = child.get(fd).unwrap();
    assert_eq!(e.vnode_ptr, 0xfeed);
    assert_eq!(e.offset, 42);
    assert_eq!(e.flags, O_RDWR);
}

#[test]
fn dup_aliases_vnode_at_lowest_free_fd() {
    let mut log: Vec<Effect> = Vec::new();
    let mut t = FdTable::new();
    let fd = t.alloc_fd(0xcafe, O_RDWR);
    let dup_fd = t.dup(&mut log, fd);
    assert!(dup_fd >= 0, "dup should succeed");
    assert_ne!(dup_fd, fd, "dup must allocate a NEW fd number");
    assert_eq!(t.get(dup_fd).unwrap().vnode_ptr, 0xcafe);
    assert_eq!(t.get(fd).unwrap().vnode_ptr, 0xcafe);
    assert_eq!(t.get(dup_fd).unwrap().flags, O_RDWR);
}

#[test]
fn dup_offsets_are_independent_option2() {
    let mut log: Vec<Effect> = Vec::new();
    let mut t = FdTable::new();
    let fd = t.alloc_fd(0x1000, O_RDWR);
    t.get_mut(fd).unwrap().offset = 10;
    let dup_fd = t.dup(&mut log, fd);
    t.get_mut(fd).unwrap().offset = 999;
    assert_eq!(t.get(dup_fd).unwrap().offset, 10, "dup'd fd keeps its own offset");
    assert_eq!(t.get(fd).unwrap().offset, 999);
}

#[test]
fn dup_bad_fd_is_ebadf() {
    let mut log: Vec<Effect> = Vec::new();
    let mut t = FdTable::new();
    assert_eq!(t.dup(&mut log, 0), -9, "dup of an unopened fd is EBADF");
    assert_eq!(t.dup(&mut log, -1), -9);
}

#[test]
fn dup_on_full_table_is_emfile() {
    let mut log: Vec<Effect> = Vec::new();
    let mut t = FdTable::new();
    let fd = t.alloc_fd(0x2000, O_RDONLY);
    while t.alloc_fd(0x3000, O_RDONLY) >= 0 {}
    assert_eq!(t.dup(&mut log, fd), -24, "dup on a full table is EMFILE");
}

#[test]
fn dup2_same_fd_is_noop_returns_fd() {
    let mut log: Vec<Effect> = Vec::new();
    let mut t = FdTable::new();
    let fd = t.alloc_fd(0x4000, O_RDWR);
    assert_eq!(t.dup2(&mut log, fd, fd), fd);
    assert_eq!(t.get(fd).unwrap().vnode_ptr, 0x4000);
}

#[test]
fn dup2_same_fd_but_invalid_is_ebadf() {
    let mut log: Vec<Effect> = Vec::new();
    let mut t = FdTable::new();
    assert_eq!(t.dup2(&mut log, 5, 5), -9);
}

#[test]
fn dup2_aliases_onto_chosen_fd() {
    let mut log: Vec<Effect> = Vec::new();
    let mut t = FdTable::new();
    let fd = t.alloc_fd(0x5000, O_WRONLY);
    let target = 20;
    assert!(t.get(target).is_none(), "target starts free");
    assert_eq!(t.dup2(&mut log, fd, target), target);
    assert_eq!(t.get(target).unwrap().vnode_ptr, 0x5000);
    assert_eq!(t.get(target).unwrap().flags, O_WRONLY);
    assert_eq!(t.get(fd).unwrap().vnode_ptr, 0x5000);
}

#[test]
fn dup2_replaces_open_target() {
    let mut log: Vec<Effect> = Vec::new();
    let mut t = FdTable::new();
    let a = t.alloc_fd(0x6000, O_RDONLY);
    let b = t.alloc_fd(0x7000, O_WRONLY);
    assert_eq!(t.dup2(&mut log, a, b), b);
    assert_eq!(t.get(b).unwrap().vnode_ptr, 0x6000);
    assert_eq!(t.get(b).unwrap().flags, O_RDONLY);
}

#[test]
fn dup2_bad_old_fd_is_ebadf() {
    let mut log: Vec<Effect> = Vec::new();
    let mut t = FdTable::new();
    assert_eq!(t.dup2(&mut log, 3, 4), -9, "dup2 of an unopened oldfd is EBADF");
}

#[test]
fn dup2_out_of_range_new_fd_is_ebadf() {
    let mut log: Vec<Effect> = Vec::new();
    let mut t = FdTable::new();
    let fd = t.alloc_fd(0x8000, O_RDWR);
    assert_eq!(t.dup2(&mut log, fd, MAX_FDS as i32), -9, "newfd past MAX_FDS is EBADF");
    assert_eq!(t.dup2(&mut log, fd, -1), -9);
}

#[test]
fn closing_all_undoes_the_references_of_a_fork() {
    let mut log: Vec<Effect> = Vec::new();
    let mut t = FdTable::new();
    t.alloc_fd(0xfeed, O_RDWR);
    t.alloc_fd(0xbeef, O_RDONLY);
    let mut child = t.clone_for_fork(&mut log);
    let taken = log.len();
    assert_eq!(taken, 2);
    child.close_all(&mut log);
    assert_eq!(log.len(), 4);
    assert!(child.get(0).is_none() && child.get(1).is_none());
    assert_eq!(t.get_vnode_ptr(0), 0xfeed);
    assert_eq!(t.get_vnode_ptr(9), 0);
}
