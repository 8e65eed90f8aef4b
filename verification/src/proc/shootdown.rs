//! Cross-CPU invalidation of cached translations.

use vstd::prelude::*;
use crate::bits::{bit, count_ones, lemma_bit_ops, ones_below};

verus! {

/// Vector of the invalidation IPI.
pub const SHOOTDOWN_VECTOR: u8 = 0xfc;

pub const MAX_SHOOTDOWN_CPUS: u32 = 64;

/// The bit that stands for a CPU.
pub open spec fn cpu_bit(cpu_id: u32) -> u64 {
    (cpu_id % MAX_SHOOTDOWN_CPUS) as u64
}

/// The CPUs that have an address space loaded.
pub struct ActiveCpuMask {
    bits: u64,
}

impl ActiveCpuMask {
    pub closed spec fn mask(&self) -> u64 {
        self.bits
    }

    /// The address space is loaded on CPU `i`.
    pub open spec fn active(&self, i: u64) -> bool {
        bit(self.mask(), i)
    }

    pub fn new() -> (r: Self)
        ensures
            r.mask() == 0,
            forall|i: u64| i < 64 ==> !#[trigger] r.active(i),
    {
        proof {
            assert forall|i: u64| i < 64 implies !bit(0, i) by {
                lemma_bit_ops(0, 0, i);
            }
        }
        ActiveCpuMask { bits: 0 }
    }

    /// The address space is now loaded on `cpu_id`.
    pub fn mark_active(&mut self, cpu_id: u32)
        ensures
            final(self).mask() == old(self).mask() | (1u64 << cpu_bit(cpu_id)),
            forall|i: u64|
                i < 64 ==> #[trigger] final(self).active(i) == (old(self).active(i) || i == cpu_bit(
                    cpu_id,
                )),
    {
        let c: u64 = (cpu_id % 64) as u64;
        self.bits = self.bits | (1u64 << c);
        proof {
            assert forall|i: u64| i < 64 implies #[trigger] self.active(i) == (old(self).active(i) || i
                == c) by {
                lemma_bit_ops(old(self).bits, c, i);
            }
        }
    }

    /// The address space is no longer loaded on `cpu_id`.
    pub fn mark_inactive(&mut self, cpu_id: u32)
        ensures
            final(self).mask() == old(self).mask() & !(1u64 << cpu_bit(cpu_id)),
            forall|i: u64|
                i < 64 ==> #[trigger] final(self).active(i) == (old(self).active(i) && i != cpu_bit(
                    cpu_id,
                )),
    {
        let c: u64 = (cpu_id % 64) as u64;
        self.bits = self.bits & !(1u64 << c);
        proof {
            assert forall|i: u64| i < 64 implies #[trigger] self.active(i) == (old(self).active(i) && i
                != c) by {
                lemma_bit_ops(old(self).bits, c, i);
            }
        }
    }

    pub fn snapshot(&self) -> (r: u64)
        ensures
            r == self.mask(),
    {
        self.bits
    }
}

impl Default for ActiveCpuMask {
    fn default() -> (r: Self)
        ensures
            r.mask() == 0,
    {
        ActiveCpuMask::new()
    }
}

/// An invalidation in flight: who was asked, how many have not answered, and
/// which page.
#[derive(Clone, Copy, Debug, PartialEq, Eq, Structural)]
pub struct ShootdownRequest {
    pub target_mask: u64,
    pub remaining: u64,
    pub virt: u64,
}

impl ShootdownRequest {
    /// A request that none of the CPUs in `target_mask` has answered.
    pub fn new(target_mask: u64, virt: u64) -> (r: Self)
        ensures
            r.target_mask == target_mask,
            r.remaining == ones_below(target_mask, 64),
            r.virt == virt,
    {
        ShootdownRequest { target_mask, remaining: count_ones(target_mask) as u64, virt }
    }
}

/// The CPUs of `active_mask` other than `self_id`.
pub fn remote_targets(active_mask: u64, self_id: u32) -> (r: u64)
    ensures
        r == active_mask & !(1u64 << cpu_bit(self_id)),
        forall|i: u64|
            i < 64 ==> #[trigger] bit(r, i) == (bit(active_mask, i) && i != cpu_bit(self_id)),
{
    let c: u64 = (self_id % 64) as u64;
    let r: u64 = active_mask & !(1u64 << c);
    proof {
        assert forall|i: u64| i < 64 implies #[trigger] bit(r, i) == (bit(active_mask, i) && i != c) by {
            lemma_bit_ops(active_mask, c, i);
        }
    }
    r
}

/// The APIC ids of the CPUs below `n` that are in `mask`, by CPU number;
/// CPUs without an id are left out.
pub open spec fn targets_below(mask: u64, ids: Seq<Option<u32>>, n: nat) -> Seq<u32>
    decreases n,
{
    if n == 0 {
        Seq::empty()
    } else {
        let rest = targets_below(mask, ids, (n - 1) as nat);
        match ids[n - 1] {
            Some(id) if bit(mask, (n - 1) as u64) => rest.push(id),
            _ => rest,
        }
    }
}

/// Start invalidating the page at `virt` on the CPUs of `active_mask`, from
/// CPU `self_id`, which has already flushed the page itself. `ids` gives each
/// CPU's APIC id. Returns the ids to send the invalidation IPI to.
///
/// With no other CPU in the mask no request is made and nothing is sent.
pub fn shootdown_page(
    pending: &mut Option<ShootdownRequest>,
    ids: &Vec<Option<u32>>,
    self_id: u32,
    active_mask: u64,
    virt: u64,
) -> (r: Vec<u32>)
    requires
        ids@.len() == MAX_SHOOTDOWN_CPUS,
    ensures
        ({
            let remote = active_mask & !(1u64 << cpu_bit(self_id));
            if remote == 0 {
                &&& r@ == Seq::<u32>::empty()
                &&& *final(pending) == *old(pending)
            } else {
                &&& r@ == targets_below(remote, ids@, 64)
                &&& *final(pending) == Some(
                    ShootdownRequest {
                        target_mask: remote,
                        remaining: ones_below(remote, 64) as u64,
                        virt,
                    },
                )
            }
        }),
{
    let remote_mask: u64 = remote_targets(active_mask, self_id);
    let mut targets: Vec<u32> = Vec::new();
    if remote_mask == 0 {
        return targets;
    }
    *pending = Some(ShootdownRequest::new(remote_mask, virt));
    let mut cpu: usize = 0;
    while cpu < 64
        invariant
            cpu <= 64,
            ids@.len() == 64,
            targets@ == targets_below(remote_mask, ids@, cpu as nat),
        decreases 64 - cpu,
    {
        proof {
            lemma_bit_ops(remote_mask, cpu as u64, 0);
        }
        if remote_mask & (1u64 << (cpu as u64)) != 0 {
            if let Some(apic_id) = ids[cpu] {
                targets.push(apic_id);
            }
        }
        cpu += 1;
    }
    targets
}

/// The initiator may go on: every CPU that was asked has answered.
pub fn shootdown_complete(pending: &Option<ShootdownRequest>) -> (r: bool)
    ensures
        r == (pending matches Some(req) ==> req.remaining == 0),
{
    match pending {
        Some(req) => req.remaining == 0,
        None => true,
    }
}

/// The request after CPU `cpu_id` has answered: one less has to, if it was asked.
pub open spec fn answer(req: ShootdownRequest, cpu_id: u32) -> ShootdownRequest {
    ShootdownRequest {
        remaining: if bit(req.target_mask, cpu_bit(cpu_id)) {
            req.remaining.wrapping_sub(1)
        } else {
            req.remaining
        },
        ..req
    }
}

/// Answer the invalidation IPI on CPU `cpu_id`: the page to flush, if this
/// CPU was asked. The request's count of CPUs still to answer then goes down by
/// one. The IPI means nothing on a CPU that was not asked.
pub fn shootdown_handler(pending: &mut Option<ShootdownRequest>, cpu_id: u32) -> (flush: Option<u64>)
    ensures
        match *old(pending) {
            None => flush is None && *final(pending) is None,
            Some(req) => {
                &&& flush == (if bit(req.target_mask, cpu_bit(cpu_id)) {
                    Some(req.virt)
                } else {
                    None
                })
                &&& *final(pending) == Some(answer(req, cpu_id))
            },
        },
{
    match *pending {
        None => None,
        Some(req) => {
            let c: u64 = (cpu_id % 64) as u64;
            proof {
                lemma_bit_ops(req.target_mask, c, 0);
            }
            if req.target_mask & (1u64 << c) == 0 {
                return None;
            }
            *pending = Some(
                ShootdownRequest { remaining: req.remaining.wrapping_sub(1), ..req },
            );
            Some(req.virt)
        },
    }
}

/// The request after the CPUs of `cpus` have answered one after another.
pub open spec fn answered(req: ShootdownRequest, cpus: Seq<u32>) -> ShootdownRequest
    decreases cpus.len(),
{
    if cpus.len() == 0 {
        req
    } else {
        answer(answered(req, cpus.drop_last()), cpus.last())
    }
}

/// How many of `cpus` were asked.
pub open spec fn asked(mask: u64, cpus: Seq<u32>) -> nat
    decreases cpus.len(),
{
    if cpus.len() == 0 {
        0
    } else {
        asked(mask, cpus.drop_last()) + if bit(mask, cpu_bit(cpus.last())) {
            1nat
        } else {
            0
        }
    }
}

/// A request is complete when exactly as many answers have come from CPUs that
/// were asked as were asked. Answers of others count for nothing.
pub proof fn complete_when_all_answered(mask: u64, virt: u64, cpus: Seq<u32>)
    requires
        asked(mask, cpus) <= ones_below(mask, 64),
    ensures
        ({
            let req = ShootdownRequest {
                target_mask: mask,
                remaining: ones_below(mask, 64) as u64,
                virt,
            };
            &&& answered(req, cpus).remaining == ones_below(mask, 64) - asked(mask, cpus)
            &&& answered(req, cpus).target_mask == mask
            &&& answered(req, cpus).virt == virt
        }),
    decreases cpus.len(),
{
    crate::bits::lemma_ones_bound(mask, 64);
    if cpus.len() > 0 {
        complete_when_all_answered(mask, virt, cpus.drop_last());
    }
}

} // verus!
