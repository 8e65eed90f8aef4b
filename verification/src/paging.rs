//! The four-level page tables of one address space.
//!
//! Each table is kept under the frame it lives in, and a walk follows the
//! frames named by present entries, as the hardware does. Only the user
//! half (the first 256 top-level entries) is ever changed here, and only
//! 4 KiB pages are mapped in it.

use std::collections::HashMap;
use vstd::prelude::*;
use crate::mem::{PageFlags, PageTableEntry, PhysAddr, PhysMem};
use crate::proc::cow::{cow_release, released, CowTable};

verus! {

broadcast use vstd::std_specs::hash::group_hash_axioms;

/// Entries of a table.
pub const TABLE_ENTRIES: usize = 512;

/// Top-level entries that belong to the user half.
pub const USER_PML4_ENTRIES: usize = 256;

/// First address above the user half.
pub const USER_HALF_END: u64 = 0x0000_8000_0000_0000;

/// One table of 512 entries.
pub struct PageTable {
    pub entries: Vec<PageTableEntry>,
}

impl PageTable {
    pub open spec fn wf(&self) -> bool {
        self.entries@.len() == 512
    }

    /// A table with no entry present.
    pub fn new() -> (r: Self)
        ensures
            r.wf(),
            forall|i: int| 0 <= i < 512 ==> #[trigger] r.entries@[i] == PageTableEntry::blank(),
    {
        let mut entries: Vec<PageTableEntry> = Vec::new();
        let mut i: usize = 0;
        while i < 512
            invariant
                i <= 512,
                entries@.len() == i,
                forall|k: int| 0 <= k < i ==> #[trigger] entries@[k] == PageTableEntry::blank(),
            decreases 512 - i,
        {
            entries.push(PageTableEntry::empty());
            i += 1;
        }
        PageTable { entries }
    }

    pub fn get(&self, index: usize) -> (r: PageTableEntry)
        requires
            index < self.entries@.len(),
        ensures
            r == self.entries@[index as int],
    {
        self.entries[index]
    }

    pub fn set(&mut self, index: usize, entry: PageTableEntry)
        requires
            index < old(self).entries@.len(),
        ensures
            final(self).entries@ == old(self).entries@.update(index as int, entry),
    {
        self.entries.set(index, entry);
    }
}

/// The page number of `virt`.
pub open spec fn page_number(virt: u64) -> nat {
    (virt / 4096) as nat
}

/// Which entry of its table covers page (or table) number `n`.
pub open spec fn slot(n: nat) -> int {
    (n % 512) as int
}

/// The table at `level` for range `n` lies on the way to the page of `virt`.
pub open spec fn on_path(level: nat, n: nat, virt: u64) -> bool {
    let p = page_number(virt);
    ||| level == 1 && n == p / 512
    ||| level == 2 && n == p / 512 / 512
    ||| level == 3 && n == p / 512 / 512 / 512
}

/// The attributes of an entry that links a lower table.
pub open spec fn link_flags() -> PageFlags {
    PageFlags { present: true, writable: true, user: true, ..PageFlags::none() }
}

/// Share counts, and the frames handed back so far.
pub struct Reclaim {
    pub counts: Map<u64, u32>,
    pub freed: Seq<u64>,
}

/// Giving up the mapping `e`: its frame is handed back unless it is shared
/// copy-on-write and another owner is still recorded.
pub open spec fn leaf_reclaimed(st: Reclaim, e: PageTableEntry) -> Reclaim {
    if !e.flags.present {
        st
    } else if e.flags.cow && st.counts.contains_key(e.frame.0) {
        Reclaim { counts: released(st.counts, e.frame.0), freed: st.freed }
    } else {
        Reclaim { counts: st.counts, freed: st.freed.push(e.frame.0) }
    }
}

/// The share counts and handed-back frames of the running system.
pub open spec fn reclaim_state(cow: &CowTable, mem: &PhysMem) -> Reclaim {
    Reclaim { counts: cow@, freed: mem.freed@ }
}

/// Give up the mapping `e`.
pub fn reclaim_leaf(e: &PageTableEntry, cow: &mut CowTable, mem: &mut PhysMem)
    requires
        old(cow).wf(),
    ensures
        final(cow).wf(),
        reclaim_state(final(cow), final(mem)) == leaf_reclaimed(
            reclaim_state(old(cow), old(mem)),
            *e,
        ),
        final(mem).bytes == old(mem).bytes,
        final(mem).pool == old(mem).pool,
{
    if e.is_present() {
        let sole_owner: bool = !e.is_cow() || cow_release(cow, e.frame);
        if sole_owner {
            mem.free_frame(e.frame);
        }
    }
}

/// The last `k` frames of a pool without repetition are those no longer in
/// the rest of it.
proof fn lemma_popped(pool: Seq<u64>, k: nat, f: u64)
    requires
        pool.no_duplicates(),
        k <= pool.len(),
    ensures
        pool.contains(f) && !pool.take(pool.len() - k).contains(f) <==> exists|i: int|
            pool.len() - k <= i < pool.len() && #[trigger] pool[i] == f,
{
    let rest = pool.take(pool.len() - k);
    if exists|i: int| pool.len() - k <= i < pool.len() && #[trigger] pool[i] == f {
        let i = choose|i: int| pool.len() - k <= i < pool.len() && #[trigger] pool[i] == f;
        if rest.contains(f) {
            let j = choose|j: int| 0 <= j < rest.len() && rest[j] == f;
            assert(pool[j] == f);
        }
    }
    if pool.contains(f) && !rest.contains(f) {
        let i = choose|i: int| 0 <= i < pool.len() && pool[i] == f;
        if i < rest.len() {
            assert(rest[i] == f);
        }
    }
}

/// The tables of one address space, under the frames they live in.
pub struct UserTables {
    root: u64,
    tables: HashMap<u64, PageTable>,
    /// Which frame holds the table at a level (4 is the top) that covers a
    /// given range: level 1 table `n` covers pages `512 * n ..`, and so on up.
    index: Ghost<Map<(nat, nat), u64>>,
    /// The level and range of the table in each frame.
    place: Ghost<Map<u64, (nat, nat)>>,
}

impl UserTables {
    /// The top-level table's frame.
    pub closed spec fn root(&self) -> u64 {
        self.root
    }

    /// Every frame that holds one of these tables.
    pub closed spec fn frames(&self) -> Set<u64> {
        self.tables@.dom()
    }

    spec fn entry(&self, frame: u64, i: int) -> PageTableEntry {
        self.tables@[frame].entries@[i]
    }

    /// The frame that a present entry links to.
    spec fn next(&self, frame: u64, i: int) -> Option<u64> {
        if self.entry(frame, i).flags.present {
            Some(self.entry(frame, i).frame.0)
        } else {
            None
        }
    }

    /// The last-level table that a walk for `virt` reaches.
    spec fn walk(&self, virt: u64) -> Option<u64> {
        let n = page_number(virt);
        match self.next(self.root, slot(n / 512 / 512 / 512)) {
            None => None,
            Some(pdpt) => match self.next(pdpt, slot(n / 512 / 512)) {
                None => None,
                Some(pd) => self.next(pd, slot(n / 512)),
            },
        }
    }

    /// The entry that maps the page of `virt`; blank where no table covers it.
    pub closed spec fn pte(&self, virt: u64) -> PageTableEntry {
        match self.walk(virt) {
            Some(pt) => self.entry(pt, slot(page_number(virt))),
            None => PageTableEntry::blank(),
        }
    }

    /// Some last-level table covers the page of `virt`.
    pub closed spec fn covered(&self, virt: u64) -> bool {
        self.walk(virt) is Some
    }

    /// How many tables are missing on the way to the page of `virt`.
    pub closed spec fn missing(&self, virt: u64) -> nat {
        let n = page_number(virt);
        match self.next(self.root, slot(n / 512 / 512 / 512)) {
            None => 3,
            Some(pdpt) => match self.next(pdpt, slot(n / 512 / 512)) {
                None => 2,
                Some(pd) => match self.next(pd, slot(n / 512)) {
                    None => 1,
                    Some(_) => 0,
                },
            },
        }
    }

    /// The frame of the table at `level` that covers range `n`, if there is one.
    pub closed spec fn table_at(&self, level: nat, n: nat) -> Option<u64> {
        if self.has(level, n) {
            Some(self.at(level, n))
        } else {
            None
        }
    }

    /// The first `k` entries of table `(level, n)` given up in order, each
    /// lower table after its own entries.
    pub open spec fn torn(&self, level: nat, n: nat, k: nat, st: Reclaim) -> Reclaim
        decreases level, k,
    {
        if level == 0 || k == 0 {
            st
        } else {
            let before = self.torn(level, n, (k - 1) as nat, st);
            let c = (n * 512 + (k - 1)) as nat;
            if level == 1 {
                leaf_reclaimed(before, self.pte((c * 4096) as u64))
            } else {
                match self.table_at((level - 1) as nat, c) {
                    None => before,
                    Some(frame) => {
                        let below = self.torn((level - 1) as nat, c, 512, before);
                        Reclaim { counts: below.counts, freed: below.freed.push(frame) }
                    },
                }
            }
        }
    }

    /// The whole user half given up.
    pub open spec fn user_half_torn(&self, st: Reclaim) -> Reclaim {
        self.torn(4, 0, 256, st)
    }

    /// Top-level entry `i`.
    pub closed spec fn top_entry(&self, i: int) -> PageTableEntry {
        self.entry(self.root, i)
    }

    /// The entries for the kernel are those of `before`.
    pub open spec fn kernel_half_kept(&self, before: &UserTables) -> bool {
        forall|k: int| 256 <= k < 512 ==> #[trigger] self.top_entry(k) == before.top_entry(k)
    }

    spec fn has(&self, level: nat, n: nat) -> bool {
        self.index@.contains_key((level, n))
    }

    spec fn at(&self, level: nat, n: nat) -> u64 {
        self.index@[(level, n)]
    }

    /// The table `(level, n)` is linked from the table above it.
    spec fn linked(&self, level: nat, n: nat) -> bool {
        &&& self.has(level + 1, n / 512)
        &&& self.next(self.at(level + 1, n / 512), slot(n)) == Some(self.at(level, n))
    }

    /// The tables form a tree: each is linked from exactly one place, and
    /// every present entry above the last level links a table.
    pub closed spec fn wf(&self) -> bool {
        &&& self.has(4, 0)
        &&& self.at(4, 0) == self.root
        &&& forall|l: nat, n: nat| #[trigger]
            self.has(l, n) ==> {
                &&& 1 <= l <= 4
                &&& l == 4 ==> n == 0
                &&& l == 3 ==> n < 256
                &&& self.tables@.contains_key(self.at(l, n))
                &&& self.tables@[self.at(l, n)].wf()
                &&& self.place@[self.at(l, n)] == (l, n)
            }
        &&& forall|l: nat, n: nat| self.has(l, n) && l < 4 ==> #[trigger] self.linked(l, n)
        &&& forall|l: nat, n: nat, i: int|
            self.has(l, n) && l > 1 && 0 <= i < 512 && (l == 4 ==> i < 256) && (
            #[trigger] self.entry(self.at(l, n), i)).flags.present ==> {
                &&& !self.entry(self.at(l, n), i).flags.huge
                &&& self.has((l - 1) as nat, (n * 512 + i) as nat)
            }
        &&& forall|f: u64| #[trigger]
            self.tables@.contains_key(f) ==> self.has(self.place@[f].0, self.place@[f].1)
                && self.at(self.place@[f].0, self.place@[f].1) == f
    }

    /// None of the tables lives in a frame that is still to be handed out.
    pub open spec fn apart(&self, mem: &PhysMem) -> bool {
        forall|i: int|
            0 <= i < mem.pool@.len() ==> !self.frames().contains(#[trigger] mem.pool@[i])
    }

    /// A walk reaches exactly the table that covers the page.
    proof fn lemma_walk(&self, virt: u64)
        requires
            self.wf(),
            virt < USER_HALF_END,
        ensures
            ({
                let n = page_number(virt);
                &&& self.next(self.root, slot(n / 512 / 512 / 512)) == (if self.has(
                    3,
                    n / 512 / 512 / 512,
                ) {
                    Some(self.at(3, n / 512 / 512 / 512))
                } else {
                    None
                })
                &&& self.has(3, n / 512 / 512 / 512) ==> self.next(
                    self.at(3, n / 512 / 512 / 512),
                    slot(n / 512 / 512),
                ) == (if self.has(2, n / 512 / 512) {
                    Some(self.at(2, n / 512 / 512))
                } else {
                    None
                })
                &&& self.has(2, n / 512 / 512) ==> self.has(3, n / 512 / 512 / 512) && self.next(
                    self.at(2, n / 512 / 512),
                    slot(n / 512),
                ) == (if self.has(1, n / 512) {
                    Some(self.at(1, n / 512))
                } else {
                    None
                })
                &&& self.has(1, n / 512) ==> self.has(2, n / 512 / 512)
                &&& self.walk(virt) == (if self.has(1, n / 512) {
                    Some(self.at(1, n / 512))
                } else {
                    None
                })
            }),
    {
        let n1 = page_number(virt);
        let n2 = n1 / 512;
        let n3 = n2 / 512;
        let n4 = n3 / 512;
        assert(n4 < 256);
        assert(slot(n4) == n4);
        assert(n4 / 512 == 0);
        assert(n3 == n4 * 512 + slot(n3));
        assert(n2 == n3 * 512 + slot(n2));
        assert(self.has(3, n4) ==> self.linked(3, n4));
        assert(self.has(2, n3) ==> self.linked(2, n3));
        assert(self.has(1, n2) ==> self.linked(1, n2));
        assert(0 * 512 + n4 == n4);
        if self.entry(self.at(4, 0), slot(n4)).flags.present {
            assert(self.has(3, (0 * 512 + slot(n4)) as nat));
        }
        if self.has(3, n4) {
            if self.entry(self.at(3, n4), slot(n3)).flags.present {
                assert(self.has(2, (n4 * 512 + slot(n3)) as nat));
            }
        }
        if self.has(2, n3) {
            if self.entry(self.at(2, n3), slot(n2)).flags.present {
                assert(self.has(1, (n3 * 512 + slot(n2)) as nat));
            }
        }
    }

    /// How many frames the tables take: as many as a copy of them needs.
    pub fn table_count(&self) -> (r: usize)
        ensures
            r == self.frames().len(),
    {
        self.tables.len()
    }

    /// Tables whose user half maps nothing, with the upper half of `kernel`.
    pub fn new(root: PhysAddr, kernel: &PageTable) -> (r: Self)
        requires
            kernel.wf(),
        ensures
            r.wf(),
            r.root() == root.0,
            r.frames() == set![root.0],
            forall|v: u64|
                v < USER_HALF_END ==> #[trigger] r.pte(v) == PageTableEntry::blank() && !r.covered(v)
                    && r.missing(v) == 3,
            forall|l: nat, n: nat| #[trigger] r.table_at(l, n) is Some ==> l == 4 && n == 0,
            forall|i: int| 0 <= i < 256 ==> #[trigger] r.top_entry(i) == PageTableEntry::blank(),
            forall|i: int| 256 <= i < 512 ==> #[trigger] r.top_entry(i) == kernel.entries@[i],
    {
        let mut table = PageTable::new();
        let mut i: usize = USER_PML4_ENTRIES;
        while i < TABLE_ENTRIES
            invariant
                256 <= i <= 512,
                table.wf(),
                kernel.wf(),
                forall|k: int| 0 <= k < 256 ==> #[trigger] table.entries@[k] == PageTableEntry::blank(),
                forall|k: int| 256 <= k < i ==> #[trigger] table.entries@[k] == kernel.entries@[k],
            decreases 512 - i,
        {
            table.set(i, kernel.get(i));
            i += 1;
        }
        Self::with_top(root.0, table)
    }

    /// Just the top-level table `table`, in frame `root`.
    fn with_top(root: u64, table: PageTable) -> (r: Self)
        requires
            table.wf(),
            forall|k: int| 0 <= k < 256 ==> #[trigger] table.entries@[k] == PageTableEntry::blank(),
        ensures
            r.wf(),
            r.root() == root,
            r.frames() == set![root],
            forall|v: u64|
                v < USER_HALF_END ==> #[trigger] r.pte(v) == PageTableEntry::blank() && !r.covered(v)
                    && r.missing(v) == 3,
            forall|l: nat, n: nat| #[trigger] r.table_at(l, n) is Some ==> l == 4 && n == 0,
            forall|i: int| 0 <= i < 512 ==> #[trigger] r.top_entry(i) == table.entries@[i],
    {
        let mut tables: HashMap<u64, PageTable> = HashMap::new();
        tables.insert(root, table);
        let r = UserTables {
            root,
            tables,
            index: Ghost(Map::<(nat, nat), u64>::empty().insert((4, 0), root)),
            place: Ghost(Map::<u64, (nat, nat)>::empty().insert(root, (4, 0))),
        };
        proof {
            assert(r.has(4, 0));
            assert(r.frames() =~= set![root]);
            assert forall|v: u64| v < USER_HALF_END implies #[trigger] r.pte(v)
                == PageTableEntry::blank() && !r.covered(v) && r.missing(v) == 3 by {
                r.lemma_walk(v);
            }
        }
        r
    }

    fn get(&self, frame: u64, i: usize) -> (r: PageTableEntry)
        requires
            self.tables@.contains_key(frame),
            self.tables@[frame].wf(),
            i < 512,
        ensures
            r == self.entry(frame, i as int),
    {
        match self.tables.get(&frame) {
            Some(table) => table.get(i),
            None => PageTableEntry::empty(),
        }
    }

    fn put(&mut self, frame: u64, i: usize, e: PageTableEntry)
        requires
            old(self).tables@.contains_key(frame),
            old(self).tables@[frame].wf(),
            i < 512,
        ensures
            final(self).root == old(self).root,
            final(self).index == old(self).index,
            final(self).place == old(self).place,
            final(self).tables@.dom() == old(self).tables@.dom(),
            forall|f: u64|
                #![trigger final(self).tables@[f]]
                f != frame && old(self).tables@.contains_key(f) ==> final(self).tables@[f] == old(
                    self,
                ).tables@[f],
            final(self).tables@[frame].entries@ == old(self).tables@[frame].entries@.update(
                i as int,
                e,
            ),
    {
        if let Some(mut table) = self.tables.remove(&frame) {
            table.set(i, e);
            self.tables.insert(frame, table);
        }
        assert(self.tables@.dom() =~= old(self).tables@.dom());
    }

    /// `after` is `before` with entry `i` of the table in `frame` set to `e`.
    spec fn stored(before: &Self, after: &Self, frame: u64, i: int, e: PageTableEntry) -> bool {
        &&& after.root == before.root
        &&& after.index == before.index
        &&& after.place == before.place
        &&& after.tables@.dom() == before.tables@.dom()
        &&& forall|f: u64|
            #![trigger after.tables@[f]]
            f != frame && before.tables@.contains_key(f) ==> after.tables@[f] == before.tables@[f]
        &&& after.tables@[frame].entries@ == before.tables@[frame].entries@.update(i, e)
    }

    proof fn lemma_put_leaf_wf(before: &Self, after: &Self, n: nat, i: int, e: PageTableEntry)
        requires
            before.wf(),
            before.has(1, n),
            0 <= i < 512,
            Self::stored(before, after, before.at(1, n), i, e),
        ensures
            after.wf(),
            forall|l: nat, m: nat|
                #![trigger after.has(l, m)]
                after.has(l, m) == before.has(l, m) && after.at(l, m) == before.at(l, m),
            forall|l: nat, m: nat, k: int|
                before.has(l, m) && l > 1 ==> #[trigger] after.entry(before.at(l, m), k)
                    == before.entry(before.at(l, m), k),
    {
        let t = before.at(1, n);
        assert(forall|l: nat, m: nat|
            #![trigger after.has(l, m)]
            after.has(l, m) == before.has(l, m) && after.at(l, m) == before.at(l, m));
        assert forall|l: nat, m: nat, k: int| before.has(l, m) && l > 1 implies #[trigger] after.entry(
            before.at(l, m),
            k,
        ) == before.entry(before.at(l, m), k) by {
            assert(before.at(l, m) != t);
        }
        assert forall|l: nat, m: nat| #[trigger] after.has(l, m) implies after.tables@[after.at(
            l,
            m,
        )].wf() by {
            assert(before.has(l, m));
            if before.at(l, m) != t {
                assert(after.tables@[before.at(l, m)] == before.tables@[before.at(l, m)]);
            }
        }
        assert forall|l: nat, m: nat| after.has(l, m) && l < 4 implies #[trigger] after.linked(
            l,
            m,
        ) by {
            assert(before.has(l, m));
            assert(before.linked(l, m));
            assert(before.has(l + 1, m / 512));
        }
        assert forall|f: u64| #[trigger] after.tables@.contains_key(f) implies after.has(
            after.place@[f].0,
            after.place@[f].1,
        ) && after.at(after.place@[f].0, after.place@[f].1) == f by {
            assert(before.tables@.contains_key(f));
        }
        assert forall|l: nat, m: nat, k: int|
            after.has(l, m) && l > 1 && 0 <= k < 512 && (l == 4 ==> k < 256) && (
            #[trigger] after.entry(after.at(l, m), k)).flags.present implies !after.entry(
            after.at(l, m),
            k,
        ).flags.huge && after.has((l - 1) as nat, (m * 512 + k) as nat) by {
            assert(before.has(l, m));
            assert(before.entry(before.at(l, m), k).flags.present);
            assert(before.has((l - 1) as nat, (m * 512 + k) as nat));
        }
    }

    /// Storing a last-level entry changes the mapping of its page only.
    proof fn lemma_put_leaf(before: &Self, after: &Self, n: nat, i: int, e: PageTableEntry)
        requires
            before.wf(),
            before.has(1, n),
            0 <= i < 512,
            Self::stored(before, after, before.at(1, n), i, e),
        ensures
            after.wf(),
            forall|v: u64|
                v < USER_HALF_END ==> #[trigger] after.pte(v) == (if page_number(v) == n * 512 + i {
                    e
                } else {
                    before.pte(v)
                }),
            forall|v: u64|
                v < USER_HALF_END ==> #[trigger] after.covered(v) == before.covered(v),
            forall|v: u64|
                v < USER_HALF_END ==> #[trigger] after.missing(v) == before.missing(v),
            forall|k: int| 0 <= k < 512 ==> #[trigger] after.top_entry(k) == before.top_entry(k),
    {
        Self::lemma_put_leaf_wf(before, after, n, i, e);
        let t = before.at(1, n);
        assert forall|v: u64| v < USER_HALF_END implies #[trigger] after.pte(v) == (if page_number(v)
            == n * 512 + i {
            e
        } else {
            before.pte(v)
        }) by {
            before.lemma_walk(v);
            after.lemma_walk(v);
            let p = page_number(v);
            assert(p == (p / 512) * 512 + slot(p));
            assert(before.has(1, p / 512) == after.has(1, p / 512));
            if before.has(1, p / 512) && p / 512 != n {
                assert(before.at(1, p / 512) != t);
                assert(after.tables@[before.at(1, p / 512)] == before.tables@[before.at(
                    1,
                    p / 512,
                )]);
            }
        }
        assert forall|v: u64| v < USER_HALF_END implies #[trigger] after.covered(v)
            == before.covered(v) by {
            before.lemma_walk(v);
            after.lemma_walk(v);
            let p = page_number(v);
            assert(before.has(1, p / 512) == after.has(1, p / 512));
        }
        assert forall|v: u64| v < USER_HALF_END implies #[trigger] after.missing(v)
            == before.missing(v) by {
            before.lemma_walk(v);
            after.lemma_walk(v);
            let p = page_number(v);
            assert(before.has(1, p / 512) == after.has(1, p / 512));
            assert(before.has(2, p / 512 / 512) == after.has(2, p / 512 / 512));
            assert(before.has(3, p / 512 / 512 / 512) == after.has(3, p / 512 / 512 / 512));
        }
        assert forall|k: int| 0 <= k < 512 implies #[trigger] after.top_entry(k) == before.top_entry(
            k,
        ) by {
            assert(before.has(4, 0));
            assert(after.entry(before.at(4, 0), k) == before.entry(before.at(4, 0), k));
        }
    }

    /// `after` is `before` with a blank table in frame `g` linked from entry
    /// `i` of table `(l, n)`.
    spec fn linked_in(before: &Self, after: &Self, l: nat, n: nat, i: int, g: u64) -> bool {
        let t = before.at(l, n);
        let c = ((l - 1) as nat, (n * 512 + i) as nat);
        &&& after.root == before.root
        &&& after.index@ == before.index@.insert(c, g)
        &&& after.place@ == before.place@.insert(g, c)
        &&& after.tables@.dom() == before.tables@.dom().insert(g)
        &&& forall|f: u64|
            #![trigger after.tables@[f]]
            f != t && before.tables@.contains_key(f) ==> after.tables@[f] == before.tables@[f]
        &&& after.tables@[t].entries@ == before.tables@[t].entries@.update(
            i,
            PageTableEntry { frame: PhysAddr(g), flags: link_flags() },
        )
        &&& after.tables@[g].wf()
        &&& forall|k: int|
            0 <= k < 512 ==> #[trigger] after.tables@[g].entries@[k] == PageTableEntry::blank()
    }

    proof fn lemma_link_wf(before: &Self, after: &Self, l: nat, n: nat, i: int, g: u64)
        requires
            before.wf(),
            before.has(l, n),
            l > 1,
            0 <= i < 512,
            l == 4 ==> i < 256,
            !before.entry(before.at(l, n), i).flags.present,
            !before.tables@.contains_key(g),
            Self::linked_in(before, after, l, n, i, g),
        ensures
            after.wf(),
            !before.has((l - 1) as nat, (n * 512 + i) as nat),
            after.has((l - 1) as nat, (n * 512 + i) as nat),
            after.at((l - 1) as nat, (n * 512 + i) as nat) == g,
            forall|m: nat, k: nat|
                #![trigger after.has(m, k)]
                (m, k) != ((l - 1) as nat, (n * 512 + i) as nat) ==> after.has(m, k) == before.has(
                    m,
                    k,
                ) && after.at(m, k) == before.at(m, k),
            forall|m: nat, k: nat| #[trigger]
                before.has(m, k) ==> after.has(m, k) && after.at(m, k) == before.at(m, k),
            forall|m: nat, k: nat, x: int|
                before.has(m, k) && (m, k) != (l, n) ==> #[trigger] after.entry(before.at(m, k), x)
                    == before.entry(before.at(m, k), x),
            forall|x: int|
                0 <= x < 512 && x != i ==> #[trigger] after.entry(before.at(l, n), x)
                    == before.entry(before.at(l, n), x),
    {
        let t = before.at(l, n);
        let cl = (l - 1) as nat;
        let cn = (n * 512 + i) as nat;
        assert(cn / 512 == n && slot(cn) == i);
        if before.has(cl, cn) {
            assert(before.linked(cl, cn));
        }
        assert(t != g);
        assert(forall|m: nat, k: nat|
            #![trigger after.has(m, k)]
            (m, k) != (cl, cn) ==> after.has(m, k) == before.has(m, k) && after.at(m, k)
                == before.at(m, k));
        assert(forall|m: nat, k: nat| #[trigger]
            before.has(m, k) ==> after.has(m, k) && after.at(m, k) == before.at(m, k));
        assert forall|m: nat, k: nat, x: int|
            before.has(m, k) && (m, k) != (l, n) implies #[trigger] after.entry(before.at(m, k), x)
            == before.entry(before.at(m, k), x) by {
            assert(before.at(m, k) != t);
        }
        assert forall|m: nat, k: nat| #[trigger] after.has(m, k) implies {
            &&& after.tables@.contains_key(after.at(m, k))
            &&& after.tables@[after.at(m, k)].wf()
            &&& after.place@[after.at(m, k)] == (m, k)
        } by {
            if (m, k) != (cl, cn) {
                assert(before.has(m, k));
                assert(before.at(m, k) != g);
                if before.at(m, k) != t {
                    assert(after.tables@[before.at(m, k)] == before.tables@[before.at(m, k)]);
                }
            }
        }
        assert forall|m: nat, k: nat| after.has(m, k) && m < 4 implies #[trigger] after.linked(
            m,
            k,
        ) by {
            if (m, k) != (cl, cn) {
                assert(before.has(m, k));
                assert(before.linked(m, k));
                assert(before.has(m + 1, k / 512));
                if m + 1 == l && k / 512 == n {
                    assert(k == n * 512 + slot(k));
                    assert(slot(k) != i);
                }
            }
        }
        assert forall|m: nat, k: nat, x: int|
            after.has(m, k) && m > 1 && 0 <= x < 512 && (m == 4 ==> x < 256) && (
            #[trigger] after.entry(after.at(m, k), x)).flags.present implies !after.entry(
            after.at(m, k),
            x,
        ).flags.huge && after.has((m - 1) as nat, (k * 512 + x) as nat) by {
            if (m, k) == (cl, cn) {
                assert(after.tables@[g].entries@[x] == PageTableEntry::blank());
            } else {
                assert(before.has(m, k));
                if (m, k) == (l, n) && x == i {
                } else {
                    assert(before.entry(before.at(m, k), x).flags.present);
                    assert(before.has((m - 1) as nat, (k * 512 + x) as nat));
                }
            }
        }
        assert forall|f: u64| #[trigger] after.tables@.contains_key(f) implies after.has(
            after.place@[f].0,
            after.place@[f].1,
        ) && after.at(after.place@[f].0, after.place@[f].1) == f by {
            if f != g {
                assert(before.tables@.contains_key(f));
                assert(before.has(before.place@[f].0, before.place@[f].1));
            }
        }
        assert(before.has(4, 0));
    }

    /// Linking a blank table maps and unmaps nothing.
    proof fn lemma_link(before: &Self, after: &Self, l: nat, n: nat, i: int, g: u64)
        requires
            before.wf(),
            before.has(l, n),
            l > 1,
            0 <= i < 512,
            l == 4 ==> i < 256,
            !before.entry(before.at(l, n), i).flags.present,
            !before.tables@.contains_key(g),
            Self::linked_in(before, after, l, n, i, g),
        ensures
            forall|v: u64| v < USER_HALF_END ==> #[trigger] after.pte(v) == before.pte(v),
            forall|v: u64| v < USER_HALF_END ==> #[trigger] after.missing(v) <= before.missing(v),
            forall|v: u64| v < USER_HALF_END && before.covered(v) ==> #[trigger] after.covered(v),
            forall|k: int| 256 <= k < 512 ==> #[trigger] after.top_entry(k) == before.top_entry(k),
    {
        Self::lemma_link_wf(before, after, l, n, i, g);
        let cl = (l - 1) as nat;
        let cn = (n * 512 + i) as nat;
        assert forall|v: u64| v < USER_HALF_END implies #[trigger] after.pte(v) == before.pte(v) by {
            before.lemma_walk(v);
            after.lemma_walk(v);
            let p = page_number(v);
            if (1nat, p / 512) == (cl, cn) {
                assert(after.tables@[g].entries@[slot(p)] == PageTableEntry::blank());
            } else {
                assert(after.has(1, p / 512) == before.has(1, p / 512));
                if before.has(1, p / 512) {
                    assert(after.entry(before.at(1, p / 512), slot(p)) == before.entry(
                        before.at(1, p / 512),
                        slot(p),
                    ));
                }
            }
        }
        assert forall|v: u64| v < USER_HALF_END implies #[trigger] after.missing(v)
            <= before.missing(v) by {
            before.lemma_walk(v);
            after.lemma_walk(v);
            let p = page_number(v);
            assert(before.has(1, p / 512) ==> after.has(1, p / 512));
            assert(before.has(2, p / 512 / 512) ==> after.has(2, p / 512 / 512));
            assert(before.has(3, p / 512 / 512 / 512) ==> after.has(3, p / 512 / 512 / 512));
        }
        assert forall|v: u64| v < USER_HALF_END && before.covered(v) implies #[trigger] after.covered(
            v,
        ) by {
            before.lemma_walk(v);
            after.lemma_walk(v);
            let p = page_number(v);
            assert(before.has(1, p / 512) ==> after.has(1, p / 512));
        }
        assert forall|k: int| 256 <= k < 512 implies #[trigger] after.top_entry(k)
            == before.top_entry(k) by {
            assert(before.has(4, 0));
            assert(after.entry(before.at(4, 0), k) == before.entry(before.at(4, 0), k));
        }
    }

    /// The table that entry `i` of the table in `frame` links, made on demand.
    fn ensure_next_table(
        &mut self,
        mem: &mut PhysMem,
        frame: u64,
        i: usize,
        l: Ghost<nat>,
        n: Ghost<nat>,
    ) -> (r: u64)
        requires
            old(self).wf(),
            old(mem).wf(),
            old(self).apart(old(mem)),
            old(self).has(l@, n@),
            old(self).at(l@, n@) == frame,
            l@ > 1,
            i < 512,
            l@ == 4 ==> i < 256,
            old(self).has((l@ - 1) as nat, (n@ * 512 + i) as nat) || old(mem).pool@.len() > 0,
        ensures
            final(self).wf(),
            final(mem).wf(),
            final(self).apart(final(mem)),
            final(self).root() == old(self).root(),
            final(self).has((l@ - 1) as nat, (n@ * 512 + i) as nat),
            final(self).at((l@ - 1) as nat, (n@ * 512 + i) as nat) == r,
            forall|m: nat, k: nat|
                #![trigger final(self).has(m, k)]
                (m, k) != ((l@ - 1) as nat, (n@ * 512 + i) as nat) ==> final(self).has(m, k) == old(
                    self,
                ).has(m, k),
            forall|m: nat, k: nat| #[trigger]
                old(self).has(m, k) ==> final(self).has(m, k) && final(self).at(m, k) == old(
                    self,
                ).at(m, k),
            forall|v: u64| v < USER_HALF_END ==> #[trigger] final(self).pte(v) == old(self).pte(v),
            forall|v: u64|
                v < USER_HALF_END ==> #[trigger] final(self).missing(v) <= old(self).missing(v),
            forall|v: u64|
                v < USER_HALF_END && old(self).covered(v) ==> #[trigger] final(self).covered(v),
            forall|k: int|
                256 <= k < 512 ==> #[trigger] final(self).top_entry(k) == old(self).top_entry(k),
            final(mem).bytes == old(mem).bytes,
            final(mem).freed == old(mem).freed,
            old(self).has((l@ - 1) as nat, (n@ * 512 + i) as nat) ==> final(mem).pool@ == old(
                mem,
            ).pool@ && final(self).frames() == old(self).frames(),
            !old(self).has((l@ - 1) as nat, (n@ * 512 + i) as nat) ==> final(mem).pool@ == old(
                mem,
            ).pool@.drop_last() && final(self).frames() == old(self).frames().insert(
                old(mem).nth_free(0),
            ),
    {
        let entry = self.get(frame, i);
        let ghost c = (n@ * 512 + i) as nat;
        assert(c / 512 == n@ && slot(c) == i);
        if entry.is_present() {
            assert(self.entry(self.at(l@, n@), i as int).flags.present);
            assert(self.has((l@ - 1) as nat, c));
            assert(self.linked((l@ - 1) as nat, c));
            return entry.frame.0;
        }
        proof {
            if self.has((l@ - 1) as nat, c) {
                assert(self.linked((l@ - 1) as nat, c));
            }
        }
        let ghost before = *self;
        let next = mem.alloc_frame();
        let g: u64 = next.0;
        assert(!before.tables@.contains_key(g)) by {
            assert(old(mem).pool@[old(mem).pool@.len() - 1] == g);
        }
        let flags = PageFlags::new().with_present().with_writable().with_user_accessible();
        self.tables.insert(g, PageTable::new());
        self.put(frame, i, PageTableEntry::new_page(next, flags));
        proof {
            self.index@ = before.index@.insert(((l@ - 1) as nat, c), g);
            self.place@ = before.place@.insert(g, ((l@ - 1) as nat, c));
            assert(self.tables@.dom() =~= before.tables@.dom().insert(g));
            Self::lemma_link_wf(&before, self, l@, n@, i as int, g);
            Self::lemma_link(&before, self, l@, n@, i as int, g);
            assert forall|k: int| 0 <= k < mem.pool@.len() implies !self.frames().contains(
                #[trigger] mem.pool@[k],
            ) by {
                assert(mem.pool@[k] == old(mem).pool@[k]);
                assert(mem.pool@.contains(mem.pool@[k]));
            }
        }
        g
    }

    /// Map the page of `virt` to the frame at `phys`, making the tables on the
    /// way as needed.
    pub fn map_page(&mut self, mem: &mut PhysMem, virt: u64, phys: PhysAddr, flags: PageFlags)
        requires
            old(self).wf(),
            old(mem).wf(),
            old(self).apart(old(mem)),
            virt < USER_HALF_END,
            old(mem).pool@.len() >= old(self).missing(virt),
        ensures
            final(self).wf(),
            final(mem).wf(),
            final(self).apart(final(mem)),
            final(self).root() == old(self).root(),
            forall|v: u64|
                v < USER_HALF_END ==> #[trigger] final(self).pte(v) == (if page_number(v)
                    == page_number(virt) {
                    PageTableEntry { frame: phys, flags }
                } else {
                    old(self).pte(v)
                }),
            final(self).covered(virt),
            final(self).missing(virt) == 0,
            forall|v: u64|
                v < USER_HALF_END ==> {
                    let p = page_number(v);
                    let q = page_number(virt);
                    &&& #[trigger] final(self).missing(v) <= old(self).missing(v)
                    &&& p / 512 == q / 512 ==> final(self).missing(v) == 0
                    &&& p / 512 / 512 == q / 512 / 512 ==> final(self).missing(v) <= 1
                    &&& p / 512 / 512 / 512 == q / 512 / 512 / 512 ==> final(self).missing(v) <= 2
                },
            forall|v: u64|
                v < USER_HALF_END && old(self).covered(v) ==> #[trigger] final(self).covered(v),
            forall|l: nat, n: nat| #[trigger]
                final(self).table_at(l, n) is Some ==> old(self).table_at(l, n) is Some || on_path(
                    l,
                    n,
                    virt,
                ),
            forall|k: int|
                256 <= k < 512 ==> #[trigger] final(self).top_entry(k) == old(self).top_entry(k),
            final(mem).bytes == old(mem).bytes,
            final(mem).freed == old(mem).freed,
            final(mem).pool@ == old(mem).pool@.take(
                old(mem).pool@.len() - old(self).missing(virt),
            ),
            forall|f: u64| #[trigger]
                final(self).frames().contains(f) <==> old(self).frames().contains(f) || (old(
                    mem,
                ).pool@.contains(f) && !final(mem).pool@.contains(f)),
            final(self).frames().len() == old(self).frames().len() + old(self).missing(virt),
    {
        let n1: u64 = virt / 4096;
        let n2: u64 = n1 / 512;
        let n3: u64 = n2 / 512;
        let n4: u64 = n3 / 512;
        let i1: usize = (n1 % 512) as usize;
        let i2: usize = (n2 % 512) as usize;
        let i3: usize = (n3 % 512) as usize;
        let i4: usize = n4 as usize;
        let ghost pool0 = mem.pool@;
        let ghost before = *self;
        proof {
            self.lemma_walk(virt);
            assert(n4 < 256 && n4 % 512 == n4);
            assert(n3 == n4 * 512 + i3 && n2 == n3 * 512 + i2 && n1 == n2 * 512 + i1);
            assert(self.has(4, 0));
            assert(self.has(1, n2 as nat) ==> self.has(2, n3 as nat));
            assert(self.has(2, n3 as nat) ==> self.has(3, n4 as nat));
        }
        proof {
            self.lemma_places();
            if mem.pool@.len() > 0 {
                assert(!self.frames().contains(mem.pool@[mem.pool@.len() - 1]));
            }
        }
        let pdpt: u64 = self.ensure_next_table(mem, self.root, i4, Ghost(4), Ghost(0));
        let ghost t1 = *self;
        let ghost pool1 = mem.pool@;
        assert(t1.has(2, n3 as nat) == before.has(2, n3 as nat));
        assert(t1.has(1, n2 as nat) == before.has(1, n2 as nat));
        proof {
            self.lemma_places();
            if mem.pool@.len() > 0 {
                assert(!self.frames().contains(mem.pool@[mem.pool@.len() - 1]));
            }
        }
        let pd: u64 = self.ensure_next_table(mem, pdpt, i3, Ghost(3), Ghost(n4 as nat));
        let ghost t2 = *self;
        let ghost pool2 = mem.pool@;
        assert(t2.has(1, n2 as nat) == before.has(1, n2 as nat));
        proof {
            self.lemma_places();
            if mem.pool@.len() > 0 {
                assert(!self.frames().contains(mem.pool@[mem.pool@.len() - 1]));
            }
        }
        let pt: u64 = self.ensure_next_table(mem, pd, i2, Ghost(2), Ghost(n3 as nat));
        let ghost t3 = *self;
        let ghost pool3 = mem.pool@;
        proof {
            let lack = before.missing(virt);
            assert(pool3 =~= pool0.take(pool0.len() - lack));
            assert(mem.pool@ == pool3);
            assert forall|f: u64| #[trigger] t3.frames().contains(f) <==> before.frames().contains(f)
                || (pool0.contains(f) && !pool3.contains(f)) by {
                lemma_popped(pool0, lack, f);
                lemma_popped(pool0, if before.has(3, n4 as nat) { 0 } else { 1nat }, f);
                lemma_popped(pool0, if before.has(3, n4 as nat) { 0 } else if before.has(2, n3 as nat) { 1 } else { 2nat }, f);
            }
        }
        self.put(pt, i1, PageTableEntry::new_page(phys, flags));
        proof {
            Self::lemma_put_leaf(&t3, self, n2 as nat, i1 as int, PageTableEntry { frame: phys, flags });
            self.lemma_walk(virt);
            assert(self.frames() == t3.frames());
            assert(self.has(1, n2 as nat)) by {
                assert(t3.has(1, n2 as nat));
            }
            assert forall|v: u64| v < USER_HALF_END implies #[trigger] self.pte(v) == (if page_number(v)
                == page_number(virt) {
                PageTableEntry { frame: phys, flags }
            } else {
                before.pte(v)
            }) by {
                assert(t3.pte(v) == t2.pte(v) && t2.pte(v) == t1.pte(v) && t1.pte(v) == before.pte(v));
            }
            assert forall|v: u64| v < USER_HALF_END implies ({
                let p = page_number(v);
                let q = page_number(virt);
                &&& #[trigger] self.missing(v) <= before.missing(v)
                &&& p / 512 == q / 512 ==> self.missing(v) == 0
                &&& p / 512 / 512 == q / 512 / 512 ==> self.missing(v) <= 1
                &&& p / 512 / 512 / 512 == q / 512 / 512 / 512 ==> self.missing(v) <= 2
            }) by {
                assert(self.missing(v) == t3.missing(v) && t3.missing(v) <= t2.missing(v)
                    && t2.missing(v) <= t1.missing(v) && t1.missing(v) <= before.missing(v));
                self.lemma_walk(v);
                assert(self.has(2, n3 as nat));
                assert(self.has(3, n4 as nat));
            }
            assert forall|l: nat, n: nat| #[trigger] self.table_at(l, n) is Some implies before.table_at(
                l,
                n,
            ) is Some || on_path(l, n, virt) by {
                assert(self.has(l, n));
                assert(t3.has(l, n));
                if !on_path(l, n, virt) {
                    assert(t2.has(l, n));
                    assert(t1.has(l, n));
                }
            }
            assert forall|v: u64| v < USER_HALF_END && before.covered(v) implies #[trigger] self.covered(
                v,
            ) by {
                assert(t1.covered(v));
                assert(t2.covered(v));
                assert(t3.covered(v));
            }
            assert forall|k: int| 256 <= k < 512 implies #[trigger] self.top_entry(k)
                == before.top_entry(k) by {
                assert(self.top_entry(k) == t3.top_entry(k) && t3.top_entry(k) == t2.top_entry(k)
                    && t2.top_entry(k) == t1.top_entry(k));
            }
        }
    }

    /// The entry that maps the page of `virt`, where a table covers it.
    pub fn leaf(&self, virt: u64) -> (r: Option<PageTableEntry>)
        requires
            self.wf(),
        ensures
            r == (if virt < USER_HALF_END && self.covered(virt) {
                Some(self.pte(virt))
            } else {
                None
            }),
    {
        match self.last_table(virt) {
            Some(pt) => Some(self.get(pt, (virt / 4096 % 512) as usize)),
            None => None,
        }
    }

    /// The last-level table that covers the page of `virt`.
    fn last_table(&self, virt: u64) -> (r: Option<u64>)
        requires
            self.wf(),
        ensures
            r == (if virt < USER_HALF_END {
                self.walk(virt)
            } else {
                None
            }),
            r matches Some(pt) ==> self.has(1, page_number(virt) / 512) && self.at(
                1,
                page_number(virt) / 512,
            ) == pt,
    {
        if virt >= USER_HALF_END {
            return None;
        }
        let n1: u64 = virt / 4096;
        let n2: u64 = n1 / 512;
        let n3: u64 = n2 / 512;
        let n4: u64 = n3 / 512;
        proof {
            self.lemma_walk(virt);
            assert(self.has(4, 0));
            assert(n4 < 256 && n4 % 512 == n4);
            assert(n3 == n4 * 512 + n3 % 512 && n2 == n3 * 512 + n2 % 512);
        }
        let pml4e = self.get(self.root, n4 as usize);
        if !pml4e.is_present() {
            return None;
        }
        let pdpte = self.get(pml4e.frame.0, (n3 % 512) as usize);
        if !pdpte.is_present() {
            return None;
        }
        assert(!pdpte.flags.huge) by {
            assert(self.entry(self.at(3, n4 as nat), (n3 % 512) as int).flags.present);
        }
        let pde = self.get(pdpte.frame.0, (n2 % 512) as usize);
        if !pde.is_present() {
            return None;
        }
        assert(!pde.flags.huge) by {
            assert(self.entry(self.at(2, n3 as nat), (n2 % 512) as int).flags.present);
        }
        Some(pde.frame.0)
    }

    /// Replace the entry that maps the page of `virt`.
    pub fn set_leaf(&mut self, virt: u64, e: PageTableEntry)
        requires
            old(self).wf(),
            virt < USER_HALF_END,
            old(self).covered(virt),
        ensures
            final(self).wf(),
            final(self).root() == old(self).root(),
            final(self).frames() == old(self).frames(),
            forall|v: u64|
                v < USER_HALF_END ==> #[trigger] final(self).pte(v) == (if page_number(v)
                    == page_number(virt) {
                    e
                } else {
                    old(self).pte(v)
                }),
            forall|v: u64|
                v < USER_HALF_END ==> #[trigger] final(self).covered(v) == old(self).covered(v),
            forall|v: u64|
                v < USER_HALF_END ==> #[trigger] final(self).missing(v) == old(self).missing(v),
            forall|k: int|
                256 <= k < 512 ==> #[trigger] final(self).top_entry(k) == old(self).top_entry(k),
    {
        if let Some(pt) = self.last_table(virt) {
            let n1: u64 = virt / 4096;
            let ghost before = *self;
            self.put(pt, (n1 % 512) as usize, e);
            proof {
                Self::lemma_put_leaf(&before, self, (n1 / 512) as nat, (n1 % 512) as int, e);
            }
        }
    }

    /// `pages` lists, in ascending order, the mapped user pages below page
    /// number `bound`.
    pub open spec fn lists(&self, pages: Seq<u64>, bound: int) -> bool {
        &&& forall|i: int, j: int| 0 <= i < j < pages.len() ==> pages[i] < pages[j]
        &&& forall|i: int|
            0 <= i < pages.len() ==> {
                &&& #[trigger] pages[i] < USER_HALF_END
                &&& pages[i] % 4096 == 0
                &&& page_number(pages[i]) < bound
                &&& self.pte(pages[i]).flags.present
            }
        &&& forall|v: u64|
            v < USER_HALF_END && v % 4096 == 0 && page_number(v) < bound && (#[trigger] self.pte(
                v,
            )).flags.present ==> pages.contains(v)
    }

    /// Pages up to `to` add nothing to a list that stops at `from` where none of them is mapped.
    proof fn lemma_lists_skip(&self, pages: Seq<u64>, from: int, to: int)
        requires
            self.lists(pages, from),
            from <= to,
            forall|v: u64|
                v < USER_HALF_END && from <= page_number(v) < to ==> !(#[trigger] self.pte(
                    v,
                )).flags.present,
        ensures
            self.lists(pages, to),
    {
    }

    fn list_pt(&self, pages: &mut Vec<u64>, pt: u64, n2: u64)
        requires
            self.wf(),
            n2 < 0x400_0000,
            self.has(1, n2 as nat),
            self.at(1, n2 as nat) == pt,
            self.lists(old(pages)@, n2 * 512),
        ensures
            self.lists(final(pages)@, n2 * 512 + 512),
    {
        let mut i: usize = 0;
        while i < 512
            invariant
                i <= 512,
                self.wf(),
                n2 < 0x400_0000,
                self.has(1, n2 as nat),
                self.at(1, n2 as nat) == pt,
                self.lists(pages@, n2 * 512 + i),
            decreases 512 - i,
        {
            let virt: u64 = (n2 * 512 + i as u64) * 4096;
            let ghost before = pages@;
            proof {
                assert(page_number(virt) == n2 * 512 + i);
                assert(page_number(virt) / 512 == n2 && slot(page_number(virt)) == i);
                self.lemma_walk(virt);
                assert forall|v: u64|
                    v < USER_HALF_END && v % 4096 == 0 && page_number(v) == n2 * 512 + i implies v
                    == virt by {}
            }
            if self.get(pt, i).is_present() {
                assert(self.pte(virt).flags.present);
                pages.push(virt);
                assert forall|v: u64|
                    v < USER_HALF_END && v % 4096 == 0 && page_number(v) < n2 * 512 + i + 1 && (
                    #[trigger] self.pte(v)).flags.present implies pages@.contains(v) by {
                    if v == virt {
                        assert(pages@[before.len() as int] == v);
                    } else {
                        assert(before.contains(v));
                        let k = choose|k: int| 0 <= k < before.len() && before[k] == v;
                        assert(pages@[k] == v);
                    }
                }
                assert forall|a: int, b: int| 0 <= a < b < pages@.len() implies pages@[a] < pages@[b] by {
                    if b == before.len() {
                        assert(page_number(before[a]) < n2 * 512 + i);
                    }
                }
            } else {
                assert(!self.pte(virt).flags.present);
                assert forall|v: u64|
                    v < USER_HALF_END && v % 4096 == 0 && page_number(v) < n2 * 512 + i + 1 && (
                    #[trigger] self.pte(v)).flags.present implies pages@.contains(v) by {
                    assert(v != virt);
                }
            }
            i += 1;
        }
    }

    fn list_pd(&self, pages: &mut Vec<u64>, pd: u64, n3: u64)
        requires
            self.wf(),
            n3 < 0x2_0000,
            self.has(2, n3 as nat),
            self.at(2, n3 as nat) == pd,
            self.lists(old(pages)@, n3 * 0x4_0000),
        ensures
            self.lists(final(pages)@, n3 * 0x4_0000 + 0x4_0000),
    {
        let mut i: usize = 0;
        while i < 512
            invariant
                i <= 512,
                self.wf(),
                n3 < 0x2_0000,
                self.has(2, n3 as nat),
                self.at(2, n3 as nat) == pd,
                self.lists(pages@, n3 * 0x4_0000 + i * 512),
            decreases 512 - i,
        {
            let n2: u64 = n3 * 512 + i as u64;
            let pde = self.get(pd, i);
            assert(n2 / 512 == n3 && slot(n2 as nat) == i);
            if pde.is_present() && !pde.is_huge_page() {
                proof {
                    assert(self.entry(self.at(2, n3 as nat), i as int).flags.present);
                    assert(self.has(1, (n3 * 512 + i) as nat));
                    assert(self.linked(1, n2 as nat));
                }
                self.list_pt(pages, pde.frame.0, n2);
            } else {
                proof {
                    assert(!self.has(1, n2 as nat)) by {
                        if self.has(1, n2 as nat) {
                            assert(self.linked(1, n2 as nat));
                            assert(self.entry(self.at(2, n3 as nat), i as int).flags.present);
                        }
                    }
                    assert forall|v: u64|
                        v < USER_HALF_END && n2 * 512 <= page_number(v) < n2 * 512 + 512 implies !(
                    #[trigger] self.pte(v)).flags.present by {
                        self.lemma_walk(v);
                        assert(page_number(v) / 512 == n2);
                    }
                    self.lemma_lists_skip(pages@, n2 * 512, n2 * 512 + 512);
                }
            }
            i += 1;
        }
    }

    fn list_pdpt(&self, pages: &mut Vec<u64>, pdpt: u64, n4: u64)
        requires
            self.wf(),
            n4 < 256,
            self.has(3, n4 as nat),
            self.at(3, n4 as nat) == pdpt,
            self.lists(old(pages)@, n4 * 0x800_0000),
        ensures
            self.lists(final(pages)@, n4 * 0x800_0000 + 0x800_0000),
    {
        let mut i: usize = 0;
        while i < 512
            invariant
                i <= 512,
                self.wf(),
                n4 < 256,
                self.has(3, n4 as nat),
                self.at(3, n4 as nat) == pdpt,
                self.lists(pages@, n4 * 0x800_0000 + i * 0x4_0000),
            decreases 512 - i,
        {
            let n3: u64 = n4 * 512 + i as u64;
            let pdpte = self.get(pdpt, i);
            assert(n3 / 512 == n4 && slot(n3 as nat) == i);
            if pdpte.is_present() && !pdpte.is_huge_page() {
                proof {
                    assert(self.entry(self.at(3, n4 as nat), i as int).flags.present);
                    assert(self.has(2, (n4 * 512 + i) as nat));
                    assert(self.linked(2, n3 as nat));
                }
                self.list_pd(pages, pdpte.frame.0, n3);
            } else {
                proof {
                    assert(!self.has(2, n3 as nat)) by {
                        if self.has(2, n3 as nat) {
                            assert(self.linked(2, n3 as nat));
                            assert(self.entry(self.at(3, n4 as nat), i as int).flags.present);
                        }
                    }
                    assert forall|v: u64|
                        v < USER_HALF_END && n3 * 0x4_0000 <= page_number(v) < n3 * 0x4_0000
                            + 0x4_0000 implies !(#[trigger] self.pte(v)).flags.present by {
                        self.lemma_walk(v);
                        assert(page_number(v) / 512 / 512 == n3);
                    }
                    self.lemma_lists_skip(pages@, n3 * 0x4_0000, n3 * 0x4_0000 + 0x4_0000);
                }
            }
            i += 1;
        }
    }

    /// The mapped user pages, lowest first.
    pub fn mapped_pages(&self) -> (pages: Vec<u64>)
        requires
            self.wf(),
        ensures
            self.lists(pages@, 0x8_0000_0000),
    {
        let mut pages: Vec<u64> = Vec::new();
        let mut i: usize = 0;
        while i < USER_PML4_ENTRIES
            invariant
                i <= 256,
                self.wf(),
                self.lists(pages@, i * 0x800_0000),
            decreases 256 - i,
        {
            assert(self.has(4, 0));
            let pml4e = self.get(self.root, i);
            if pml4e.is_present() {
                proof {
                    assert(self.entry(self.at(4, 0), i as int).flags.present);
                    assert(self.has(3, (0 * 512 + i) as nat));
                    assert(self.linked(3, i as nat));
                }
                self.list_pdpt(&mut pages, pml4e.frame.0, i as u64);
            } else {
                proof {
                    assert(!self.has(3, i as nat)) by {
                        if self.has(3, i as nat) {
                            assert(self.linked(3, i as nat));
                        }
                    }
                    assert forall|v: u64|
                        v < USER_HALF_END && i * 0x800_0000 <= page_number(v) < i * 0x800_0000
                            + 0x800_0000 implies !(#[trigger] self.pte(v)).flags.present by {
                        self.lemma_walk(v);
                        assert(page_number(v) / 512 / 512 / 512 == i);
                    }
                    self.lemma_lists_skip(pages@, i * 0x800_0000, i * 0x800_0000 + 0x800_0000);
                }
            }
            i += 1;
        }
        pages
    }

    /// Give up everything below the table in `frame`, and the table.
    fn free_table(&self, frame: u64, level: u8, n: u64, cow: &mut CowTable, mem: &mut PhysMem)
        requires
            self.wf(),
            1 <= level <= 3,
            level == 3 ==> n < 0x100,
            level == 2 ==> n < 0x2_0000,
            level == 1 ==> n < 0x400_0000,
            self.has(level as nat, n as nat),
            self.at(level as nat, n as nat) == frame,
            old(cow).wf(),
        ensures
            final(cow).wf(),
            reclaim_state(final(cow), final(mem)) == ({
                let below = self.torn(
                    level as nat,
                    n as nat,
                    512,
                    reclaim_state(old(cow), old(mem)),
                );
                Reclaim { counts: below.counts, freed: below.freed.push(frame) }
            }),
            final(mem).bytes == old(mem).bytes,
            final(mem).pool == old(mem).pool,
        decreases level,
    {
        let ghost st = reclaim_state(cow, mem);
        let mut i: usize = 0;
        while i < 512
            invariant
                i <= 512,
                self.wf(),
                1 <= level <= 3,
                level == 3 ==> n < 0x100,
                level == 2 ==> n < 0x2_0000,
                level == 1 ==> n < 0x400_0000,
                self.has(level as nat, n as nat),
                self.at(level as nat, n as nat) == frame,
                cow.wf(),
                reclaim_state(cow, mem) == self.torn(level as nat, n as nat, i as nat, st),
                mem.bytes == old(mem).bytes,
                mem.pool == old(mem).pool,
            decreases 512 - i,
        {
            let entry = self.get(frame, i);
            let ghost c = (n * 512 + i) as nat;
            assert(c / 512 == n && slot(c) == i);
            if level == 1 {
                proof {
                    let virt = (c * 4096) as u64;
                    assert(page_number(virt) == c);
                    self.lemma_walk(virt);
                    assert(self.pte(virt) == entry);
                }
                reclaim_leaf(&entry, cow, mem);
            } else if entry.is_present() {
                proof {
                    assert(self.entry(self.at(level as nat, n as nat), i as int).flags.present);
                    assert(self.has((level - 1) as nat, c));
                    assert(self.linked((level - 1) as nat, c));
                }
                self.free_table(entry.frame.0, level - 1, n * 512 + i as u64, cow, mem);
            } else {
                proof {
                    if self.has((level - 1) as nat, c) {
                        assert(self.linked((level - 1) as nat, c));
                    }
                }
            }
            i += 1;
        }
        mem.free_frame(PhysAddr(frame));
    }

    /// Give up every user mapping and every table but the top-level one.
    pub fn free_user_half(&mut self, cow: &mut CowTable, mem: &mut PhysMem)
        requires
            old(self).wf(),
            old(cow).wf(),
        ensures
            final(self).wf(),
            final(self).root() == old(self).root(),
            final(self).frames() == set![old(self).root()],
            forall|v: u64|
                v < USER_HALF_END ==> #[trigger] final(self).pte(v) == PageTableEntry::blank()
                    && !final(self).covered(v) && final(self).missing(v) == 3,
            forall|k: int|
                256 <= k < 512 ==> #[trigger] final(self).top_entry(k) == old(self).top_entry(k),
            final(cow).wf(),
            reclaim_state(final(cow), final(mem)) == old(self).user_half_torn(
                reclaim_state(old(cow), old(mem)),
            ),
            final(mem).bytes == old(mem).bytes,
            final(mem).pool == old(mem).pool,
    {
        let ghost st = reclaim_state(cow, mem);
        let mut top = PageTable::new();
        let mut i: usize = 0;
        while i < USER_PML4_ENTRIES
            invariant
                i <= 256,
                self.wf(),
                cow.wf(),
                reclaim_state(cow, mem) == self.torn(4, 0, i as nat, st),
                mem.bytes == old(mem).bytes,
                mem.pool == old(mem).pool,
            decreases 256 - i,
        {
            assert(self.has(4, 0));
            let entry = self.get(self.root, i);
            assert(i as nat / 512 == 0 && slot(i as nat) == i);
            if entry.is_present() {
                proof {
                    assert(self.entry(self.at(4, 0), i as int).flags.present);
                    assert(self.has(3, (0 * 512 + i) as nat));
                    assert(self.linked(3, i as nat));
                }
                self.free_table(entry.frame.0, 3, i as u64, cow, mem);
            } else {
                proof {
                    if self.has(3, i as nat) {
                        assert(self.linked(3, i as nat));
                    }
                }
            }
            i += 1;
        }
        let mut k: usize = USER_PML4_ENTRIES;
        while k < TABLE_ENTRIES
            invariant
                256 <= k <= 512,
                self.wf(),
                top.wf(),
                forall|x: int| 0 <= x < 256 ==> #[trigger] top.entries@[x] == PageTableEntry::blank(),
                forall|x: int| 256 <= x < k ==> #[trigger] top.entries@[x] == self.top_entry(x),
            decreases 512 - k,
        {
            assert(self.has(4, 0));
            top.set(k, self.get(self.root, k));
            k += 1;
        }
        let root: u64 = self.root;
        *self = Self::with_top(root, top);
    }

    /// The places of the tables.
    spec fn places(&self) -> Set<(nat, nat)> {
        self.index@.dom()
    }

    /// There is one frame for each place.
    proof fn lemma_places(&self)
        requires
            self.wf(),
        ensures
            self.frames().finite(),
            self.places().finite(),
            self.places().len() == self.frames().len(),
    {
        let f = |x: u64| self.place@[x];
        assert(self.frames().map(f) =~= self.places()) by {
            assert forall|k: (nat, nat)| self.places().contains(k) implies self.frames().map(
                f,
            ).contains(k) by {
                assert(self.has(k.0, k.1));
                assert(self.frames().contains(self.at(k.0, k.1)));
                assert(f(self.at(k.0, k.1)) == k);
            }
            assert forall|k: (nat, nat)| self.frames().map(f).contains(k) implies self.places().contains(
                k,
            ) by {
                let x = choose|x: u64| self.frames().contains(x) && f(x) == k;
                assert(self.tables@.contains_key(x));
            }
        }
        assert(vstd::relations::injective_on(f, self.frames())) by {
            assert forall|x: u64, y: u64|
                self.frames().contains(x) && self.frames().contains(y) && #[trigger] f(x)
                    == #[trigger] f(y) implies x == y by {
                assert(self.tables@.contains_key(x) && self.tables@.contains_key(y));
            }
        }
        vstd::set_lib::lemma_map_size(self.frames(), self.places(), f);
    }

    /// Where `other` has every table that these have, and covers `virt`, these
    /// can reach the page of `virt` without outnumbering the tables of `other`.
    pub proof fn lemma_table_budget(&self, other: &Self, virt: u64)
        requires
            self.wf(),
            other.wf(),
            virt < USER_HALF_END,
            other.covered(virt),
            forall|l: nat, n: nat| #[trigger]
                self.table_at(l, n) is Some ==> other.table_at(l, n) is Some,
        ensures
            self.frames().len() + self.missing(virt) <= other.frames().len(),
            forall|l: nat, n: nat| #[trigger] on_path(l, n, virt) ==> other.table_at(l, n) is Some,
    {
        let p = page_number(virt);
        let k1 = (1nat, p / 512);
        let k2 = (2nat, p / 512 / 512);
        let k3 = (3nat, p / 512 / 512 / 512);
        self.lemma_walk(virt);
        other.lemma_walk(virt);
        self.lemma_places();
        other.lemma_places();
        assert(other.has(k1.0, k1.1) && other.has(k2.0, k2.1) && other.has(k3.0, k3.1));
        let all = self.places().insert(k3).insert(k2).insert(k1);
        assert(all.subset_of(other.places())) by {
            assert forall|k: (nat, nat)| all.contains(k) implies other.places().contains(k) by {
                if self.places().contains(k) {
                    assert(self.table_at(k.0, k.1) is Some);
                }
            }
        }
        vstd::set_lib::lemma_len_subset(all, other.places());
        assert(self.has(k1.0, k1.1) == self.places().contains(k1));
        assert(self.has(k2.0, k2.1) == self.places().contains(k2));
        assert(self.has(k3.0, k3.1) == self.places().contains(k3));
    }

    /// At most three tables are missing on the way to a page, and none on the
    /// way to one that is mapped.
    pub proof fn lemma_missing_bound(&self, virt: u64)
        requires
            self.wf(),
            virt < USER_HALF_END,
        ensures
            self.missing(virt) <= 3,
            self.covered(virt) == (self.missing(virt) == 0),
            self.pte(virt).flags.present ==> self.covered(virt),
            self.frames().finite(),
            self.frames().contains(self.root()),
            self.table_at(4, 0) is Some,
    {
        self.lemma_walk(virt);
        self.lemma_places();
        assert(self.has(4, 0));
    }

    /// All addresses of a page are mapped by the same entry.
    pub proof fn lemma_same_page(&self, v: u64, w: u64)
        requires
            page_number(v) == page_number(w),
        ensures
            self.pte(v) == self.pte(w),
            self.covered(v) == self.covered(w),
            self.missing(v) == self.missing(w),
    {
    }
}

} // verus!
