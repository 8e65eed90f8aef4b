//! The open files of a process.

use vstd::prelude::*;
use super::effects::Effect;

verus! {

pub const MAX_FDS: usize = 64;

pub const O_RDONLY: u32 = 0;

pub const O_WRONLY: u32 = 1;

pub const O_RDWR: u32 = 2;

pub const O_CREAT: u32 = 64;

pub const O_TRUNC: u32 = 512;

/// No such descriptor.
pub const EBADF: i32 = -9;

/// No descriptor is free.
pub const EMFILE: i32 = -24;

/// An open file: its vnode, the position in it and how it was opened.
#[derive(Clone, Copy, Debug, PartialEq, Eq, Structural)]
pub struct FdEntry {
    pub vnode_ptr: usize,
    pub offset: u64,
    pub flags: u32,
    pub _reserved: u32,
}

impl FdEntry {
    /// Opened for reading.
    pub fn can_read(&self) -> (r: bool)
        ensures
            r == (self.flags & 3 == 0 || self.flags & 3 == 2),
    {
        let mode: u32 = self.flags & 3;
        mode == O_RDONLY || mode == O_RDWR
    }

    /// Opened for writing.
    pub fn can_write(&self) -> (r: bool)
        ensures
            r == (self.flags & 3 == 1 || self.flags & 3 == 2),
    {
        let mode: u32 = self.flags & 3;
        mode == O_WRONLY || mode == O_RDWR
    }
}

/// The open files, by descriptor.
pub struct FdTable {
    pub fds: [Option<FdEntry>; MAX_FDS],
}

/// What descriptor `fd` stands for.
pub open spec fn entry_of(fds: Seq<Option<FdEntry>>, fd: i32) -> Option<FdEntry> {
    if 0 <= fd < 64 {
        fds[fd as int]
    } else {
        None
    }
}

/// The lowest of the first `n` descriptors that is free.
pub open spec fn lowest_free(fds: Seq<Option<FdEntry>>, n: nat) -> Option<int>
    decreases n,
{
    if n == 0 {
        None
    } else {
        match lowest_free(fds, (n - 1) as nat) {
            Some(i) => Some(i),
            None => if fds[n - 1] is None {
                Some(n - 1)
            } else {
                None
            },
        }
    }
}

/// The references that a copy of the first `n` descriptors takes.
pub open spec fn fork_refs(fds: Seq<Option<FdEntry>>, n: nat) -> Seq<Effect>
    decreases n,
{
    if n == 0 {
        Seq::empty()
    } else {
        let before = fork_refs(fds, (n - 1) as nat);
        match fds[n - 1] {
            Some(e) if e.vnode_ptr != 0 => before.push(Effect::IncRef { vnode: e.vnode_ptr }),
            _ => before,
        }
    }
}

/// What closing the first `n` descriptors asks for.
pub open spec fn close_releases(fds: Seq<Option<FdEntry>>, n: nat) -> Seq<Effect>
    decreases n,
{
    if n == 0 {
        Seq::empty()
    } else {
        let before = close_releases(fds, (n - 1) as nat);
        match fds[n - 1] {
            Some(e) if e.vnode_ptr != 0 => before.push(Effect::Release { vnode: e.vnode_ptr }),
            _ => before,
        }
    }
}

/// A table in which every descriptor is free.
pub open spec fn no_fds() -> Seq<Option<FdEntry>> {
    Seq::new(64, |i: int| None::<FdEntry>)
}

proof fn lemma_free_sticks(fds: Seq<Option<FdEntry>>, m: nat, n: nat)
    requires
        m <= n,
        lowest_free(fds, m) is Some,
    ensures
        lowest_free(fds, n) == lowest_free(fds, m),
    decreases n,
{
    if m < n {
        lemma_free_sticks(fds, m, (n - 1) as nat);
    }
}

/// What duplicating `old_fd` does to a table and its requests, and returns.
pub open spec fn dup_done(
    before: FdTable,
    after: FdTable,
    log0: Seq<Effect>,
    log1: Seq<Effect>,
    old_fd: i32,
    r: i32,
) -> bool {
    match (entry_of(before.fds@, old_fd), lowest_free(before.fds@, 64)) {
        (None, _) => r == -9 && after == before && log1 == log0,
        (Some(_), None) => r == -24 && after == before && log1 == log0,
        (Some(e), Some(i)) => {
            &&& r == i && 0 <= i < 64
            &&& after.fds@ == before.fds@.update(i, Some(e))
            &&& log1 == log0.push(Effect::IncRef { vnode: e.vnode_ptr })
        },
    }
}

/// What duplicating `old_fd` as `new_fd` does to a table and its requests, and
/// returns.
pub open spec fn dup2_done(
    before: FdTable,
    after: FdTable,
    log0: Seq<Effect>,
    log1: Seq<Effect>,
    old_fd: i32,
    new_fd: i32,
    r: i32,
) -> bool {
    match entry_of(before.fds@, old_fd) {
        Some(e) if 0 <= new_fd < 64 => {
            &&& r == new_fd
            &&& after.fds@ == before.fds@.update(new_fd as int, Some(e))
            &&& log1 == log0 + (if old_fd == new_fd {
                Seq::empty()
            } else {
                (match before.fds@[new_fd as int] {
                    Some(gone) => seq![Effect::DecRef { vnode: gone.vnode_ptr }],
                    None => Seq::empty(),
                }).push(Effect::IncRef { vnode: e.vnode_ptr })
            })
        },
        _ => r == -9 && after == before && log1 == log0,
    }
}

impl FdTable {
    pub fn new() -> (r: Self)
        ensures
            r.fds@ == no_fds(),
    {
        let r = FdTable { fds: [None;MAX_FDS] };
        assert(r.fds@ =~= no_fds());
        r
    }

    /// The lowest free descriptor.
    fn free_fd(&self) -> (r: Option<usize>)
        ensures
            match r {
                Some(i) => lowest_free(self.fds@, 64) == Some(i as int) && i < 64
                    && self.fds@[i as int] is None,
                None => lowest_free(self.fds@, 64) is None,
            },
    {
        let mut i: usize = 0;
        while i < MAX_FDS
            invariant
                i <= 64,
                lowest_free(self.fds@, i as nat) is None,
            decreases 64 - i,
        {
            if self.fds[i].is_none() {
                proof {
                    lemma_free_sticks(self.fds@, (i + 1) as nat, 64);
                }
                return Some(i);
            }
            i += 1;
        }
        None
    }

    /// Open a vnode at the lowest free descriptor, which is returned; -24
    /// where none is free.
    pub fn alloc_fd(&mut self, vnode_ptr: usize, flags: u32) -> (r: i32)
        ensures
            match lowest_free(old(self).fds@, 64) {
                Some(i) => r == i && 0 <= i < 64 && final(self).fds@ == old(self).fds@.update(
                    i,
                    Some(FdEntry { vnode_ptr, offset: 0, flags, _reserved: 0 }),
                ),
                None => r == -24 && *final(self) == *old(self),
            },
    {
        match self.free_fd() {
            Some(i) => {
                self.fds[i] = Some(FdEntry { vnode_ptr, offset: 0, flags, _reserved: 0 });
                i as i32
            },
            None => EMFILE,
        }
    }

    pub fn get(&self, fd: i32) -> (r: Option<&FdEntry>)
        ensures
            match r {
                Some(e) => entry_of(self.fds@, fd) == Some(*e),
                None => entry_of(self.fds@, fd) is None,
            },
    {
        if fd < 0 || fd as usize >= MAX_FDS {
            return None;
        }
        self.fds[fd as usize].as_ref()
    }

    pub fn get_mut(&mut self, fd: i32) -> (r: Option<&mut FdEntry>)
        ensures
            match r {
                Some(e) => entry_of(old(self).fds@, fd) == Some(*e) && final(self).fds@ == old(
                    self,
                ).fds@.update(fd as int, Some(*final(e))),
                None => entry_of(old(self).fds@, fd) is None && final(self).fds@ == old(self).fds@,
            },
    {
        if fd < 0 || fd as usize >= MAX_FDS {
            return None;
        }
        self.fds[fd as usize].as_mut()
    }

    /// Free a descriptor; -9 where it is not open.
    pub fn close(&mut self, fd: i32) -> (r: i32)
        ensures
            match entry_of(old(self).fds@, fd) {
                Some(_) => r == 0 && final(self).fds@ == old(self).fds@.update(fd as int, None),
                None => r == -9 && *final(self) == *old(self),
            },
    {
        if fd < 0 || fd as usize >= MAX_FDS {
            return EBADF;
        }
        if self.fds[fd as usize].is_none() {
            return EBADF;
        }
        self.fds[fd as usize] = None;
        0
    }

    /// The vnode of a descriptor, 0 where it is not open.
    pub fn get_vnode_ptr(&self, fd: i32) -> (r: usize)
        ensures
            r == (match entry_of(self.fds@, fd) {
                Some(e) => e.vnode_ptr,
                None => 0,
            }),
    {
        match self.get(fd) {
            Some(e) => e.vnode_ptr,
            None => 0,
        }
    }

    /// A copy for a child process. Each descriptor in it is one more reference
    /// to its vnode.
    pub fn clone_for_fork(&self, log: &mut Vec<Effect>) -> (r: Self)
        ensures
            r.fds@ == self.fds@,
            final(log)@ == old(log)@ + fork_refs(self.fds@, 64),
    {
        let mut i: usize = 0;
        let ghost log0 = log@;
        assert(log@ =~= log0 + fork_refs(self.fds@, 0));
        while i < MAX_FDS
            invariant
                i <= 64,
                log@ == log0 + fork_refs(self.fds@, i as nat),
            decreases 64 - i,
        {
            if let Some(e) = self.fds[i] {
                if e.vnode_ptr != 0 {
                    log.push(Effect::IncRef { vnode: e.vnode_ptr });
                    assert(log@ =~= log0 + fork_refs(self.fds@, (i + 1) as nat));
                }
            }
            i += 1;
        }
        FdTable { fds: self.fds }
    }

    /// Close every descriptor.
    pub fn close_all(&mut self, log: &mut Vec<Effect>)
        ensures
            final(self).fds@ == no_fds(),
            final(log)@ == old(log)@ + close_releases(old(self).fds@, 64),
    {
        let mut i: usize = 0;
        let ghost log0 = log@;
        assert(log@ =~= log0 + close_releases(self.fds@, 0));
        while i < MAX_FDS
            invariant
                i <= 64,
                *self == *old(self),
                log@ == log0 + close_releases(self.fds@, i as nat),
            decreases 64 - i,
        {
            if let Some(e) = self.fds[i] {
                if e.vnode_ptr != 0 {
                    log.push(Effect::Release { vnode: e.vnode_ptr });
                    assert(log@ =~= log0 + close_releases(self.fds@, (i + 1) as nat));
                }
            }
            i += 1;
        }
        self.fds = [None;MAX_FDS];
        assert(self.fds@ =~= no_fds());
    }

    /// Open what `old_fd` stands for at the lowest free descriptor as well.
    /// The two have the vnode in common and a position each.
    pub fn dup(&mut self, log: &mut Vec<Effect>, old_fd: i32) -> (r: i32)
        ensures
            dup_done(*old(self), *final(self), old(log)@, final(log)@, old_fd, r),
    {
        let entry: FdEntry = match self.get(old_fd) {
            Some(e) => *e,
            None => return EBADF,
        };
        match self.free_fd() {
            Some(i) => {
                self.fds[i] = Some(entry);
                log.push(Effect::IncRef { vnode: entry.vnode_ptr });
                i as i32
            },
            None => EMFILE,
        }
    }

    /// Open what `old_fd` stands for as `new_fd`, in place of what that stood
    /// for.
    pub fn dup2(&mut self, log: &mut Vec<Effect>, old_fd: i32, new_fd: i32) -> (r: i32)
        ensures
            dup2_done(*old(self), *final(self), old(log)@, final(log)@, old_fd, new_fd, r),
    {
        if old_fd == new_fd {
            let open = self.get(old_fd).is_some();
            assert(open ==> self.fds@ =~= self.fds@.update(new_fd as int, entry_of(self.fds@, old_fd)));
            assert(log@ =~= log@ + Seq::<Effect>::empty());
            return if open {
                new_fd
            } else {
                EBADF
            };
        }
        let entry: FdEntry = match self.get(old_fd) {
            Some(e) => *e,
            None => return EBADF,
        };
        if new_fd < 0 || new_fd as usize >= MAX_FDS {
            return EBADF;
        }
        let ghost log0 = log@;
        if let Some(gone) = self.fds[new_fd as usize] {
            log.push(Effect::DecRef { vnode: gone.vnode_ptr });
        }
        self.fds[new_fd as usize] = Some(entry);
        log.push(Effect::IncRef { vnode: entry.vnode_ptr });
        assert(log@ =~= log0 + (match old(self).fds@[new_fd as int] {
            Some(gone) => seq![Effect::DecRef { vnode: gone.vnode_ptr }],
            None => Seq::empty(),
        }).push(Effect::IncRef { vnode: entry.vnode_ptr }));
        new_fd
    }
}

impl Default for FdTable {
    fn default() -> (r: Self)
        ensures
            r.fds@ == no_fds(),
    {
        FdTable::new()
    }
}

/// How often `effects` takes a reference to `vnode`, less how often it gives
/// one up by closing a descriptor.
pub open spec fn balance(effects: Seq<Effect>, vnode: usize) -> int
    decreases effects.len(),
{
    if effects.len() == 0 {
        0
    } else {
        balance(effects.drop_last(), vnode) + (match effects.last() {
            Effect::IncRef { vnode: v } if v == vnode => 1int,
            Effect::Release { vnode: v } if v == vnode => -1int,
            Effect::DecRef { vnode: v } if v == vnode => -1int,
            _ => 0int,
        })
    }
}

/// A copy made for a child and closed again gives back exactly the references
/// it took.
pub proof fn close_undoes_fork(fds: Seq<Option<FdEntry>>, n: nat, vnode: usize)
    ensures
        balance(fork_refs(fds, n), vnode) + balance(close_releases(fds, n), vnode) == 0,
    decreases n,
{
    if n > 0 {
        close_undoes_fork(fds, (n - 1) as nat, vnode);
        let a = fork_refs(fds, (n - 1) as nat);
        let b = close_releases(fds, (n - 1) as nat);
        if let Some(e) = fds[n - 1] {
            if e.vnode_ptr != 0 {
                let x = Effect::IncRef { vnode: e.vnode_ptr };
                let y = Effect::Release { vnode: e.vnode_ptr };
                assert(a.push(x).drop_last() =~= a);
                assert(b.push(y).drop_last() =~= b);
            }
        }
    }
}

/// The lowest free descriptor is free, and every lower one is open.
pub proof fn lowest_is_lowest(fds: Seq<Option<FdEntry>>, n: nat)
    ensures
        match lowest_free(fds, n) {
            Some(i) => 0 <= i < n && fds[i] is None && forall|k: int|
                0 <= k < i ==> #[trigger] fds[k] is Some,
            None => forall|k: int| 0 <= k < n ==> #[trigger] fds[k] is Some,
        },
    decreases n,
{
    if n > 0 {
        lowest_is_lowest(fds, (n - 1) as nat);
    }
}

} // verus!
