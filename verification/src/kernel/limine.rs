//! What the kernel asks of the boot loader, and what it makes of the answers.

use vstd::prelude::*;
use super::address::KERNEL_BASE;

verus! {

/// One piece of the memory map.
#[derive(Clone, Copy, Debug, PartialEq, Eq, Structural)]
pub struct LimineMemMapEntry {
    pub base: u64,
    pub length: u64,
    pub mem_type: u32,
    pub _unused: u32,
}

/// The memory map; its entries are pointers, at the address `entries`.
#[derive(Clone, Copy, Debug, PartialEq, Eq, Structural)]
pub struct LimineMemMapResponse {
    pub revision: u64,
    pub entry_count: u64,
    pub entries: u64,
}

/// Where the kernel was loaded.
#[derive(Clone, Copy, Debug, PartialEq, Eq, Structural)]
pub struct LimineExecutableAddressResponse {
    pub revision: u64,
    pub physical_base: u64,
    pub virtual_base: u64,
}

/// Where the root of the ACPI tables is.
#[derive(Clone, Copy, Debug, PartialEq, Eq, Structural)]
pub struct LimineRsdpResponse {
    pub revision: u64,
    pub address: u64,
}

/// A request: the boot loader knows it by its number, and stores the address of
/// its answer.
#[derive(Clone, Copy, Debug, PartialEq, Eq)]
pub struct LimineRequestHeader {
    pub id: [u64; 4],
    pub revision: u64,
    pub response: u64,
}

/// Most pieces of a memory map.
pub const MAX_MEMMAP_ENTRIES: usize = 128;

/// A request that has not been answered. Its number is that of all requests and
/// two words of its own.
fn request(a: u64, b: u64) -> (r: LimineRequestHeader)
    ensures
        r.id@ == seq![0xc7b1_dd30_df4c_8b88u64, 0x0a82_e883_a194_f07b, a, b],
        r.revision == 0,
        r.response == 0,
{
    let r = LimineRequestHeader {
        id: [0xc7b1_dd30_df4c_8b88, 0x0a82_e883_a194_f07b, a, b],
        revision: 0,
        response: 0,
    };
    assert(r.id@ =~= seq![0xc7b1_dd30_df4c_8b88u64, 0x0a82_e883_a194_f07b, a, b]);
    r
}

/// Ask for the memory map.
pub fn memmap_request() -> (r: LimineRequestHeader)
    ensures
        r.id@ == seq![
            0xc7b1_dd30_df4c_8b88u64,
            0x0a82_e883_a194_f07b,
            0x67cf_3d9d_378a_806f,
            0xe304_acdf_c50c_3c62,
        ],
        r.revision == 0,
        r.response == 0,
{
    request(0x67cf_3d9d_378a_806f, 0xe304_acdf_c50c_3c62)
}

/// Ask where the kernel was loaded.
pub fn executable_address_request() -> (r: LimineRequestHeader)
    ensures
        r.id@ == seq![
            0xc7b1_dd30_df4c_8b88u64,
            0x0a82_e883_a194_f07b,
            0x71ba_7686_3cc5_5f63,
            0xb264_4a48_c516_a487,
        ],
        r.revision == 0,
        r.response == 0,
{
    request(0x71ba_7686_3cc5_5f63, 0xb264_4a48_c516_a487)
}

/// Ask for the root of the ACPI tables.
pub fn rsdp_request() -> (r: LimineRequestHeader)
    ensures
        r.id@ == seq![
            0xc7b1_dd30_df4c_8b88u64,
            0x0a82_e883_a194_f07b,
            0xc5e7_7b6b_397e_7b43,
            0x2763_7845_accd_cf3c,
        ],
        r.revision == 0,
        r.response == 0,
{
    request(0xc5e7_7b6b_397e_7b43, 0x2763_7845_accd_cf3c)
}

/// The memory map, of a request that has been answered.
pub fn get_memmap(response: Option<LimineMemMapResponse>) -> (r: LimineMemMapResponse)
    requires
        response is Some,
    ensures
        response == Some(r),
{
    response.unwrap()
}

/// Where the kernel was loaded, of a request that has been answered.
pub fn get_executable_address(response: Option<LimineExecutableAddressResponse>) -> (r: u64)
    requires
        response is Some,
    ensures
        r == response->Some_0.physical_base,
{
    response.unwrap().physical_base
}

/// The root of the ACPI tables, of a request that has been answered.
pub fn get_rsdp_phys(response: Option<LimineRsdpResponse>) -> (r: u64)
    requires
        response is Some,
    ensures
        r == response->Some_0.address,
{
    response.unwrap().address
}

/// The physical memory of the kernel, which was loaded at `base` and ends at
/// the virtual address `image_end`.
pub fn get_kernel_phys_range(base: u64, image_end: u64) -> (r: (u64, u64))
    requires
        image_end >= KERNEL_BASE,
        base + (image_end - KERNEL_BASE) <= u64::MAX,
    ensures
        r.0 == base,
        r.1 == base + (image_end - KERNEL_BASE),
{
    (base, base + (image_end - KERNEL_BASE))
}

/// A piece of memory for the frame allocator.
#[derive(Clone, Copy, Debug, PartialEq, Eq, Structural)]
pub struct MemmapEntry {
    pub base: u64,
    pub length: u64,
    pub mem_type: u32,
}

/// The memory map for the frame allocator.
pub fn copy_memmap(entries: &[LimineMemMapEntry]) -> (r: Vec<MemmapEntry>)
    requires
        entries@.len() <= MAX_MEMMAP_ENTRIES,
    ensures
        r@.len() == entries@.len(),
        forall|i: int|
            0 <= i < r@.len() ==> #[trigger] r@[i] == (MemmapEntry {
                base: entries@[i].base,
                length: entries@[i].length,
                mem_type: entries@[i].mem_type,
            }),
{
    let mut out: Vec<MemmapEntry> = Vec::new();
    let mut i: usize = 0;
    while i < entries.len()
        invariant
            i <= entries@.len(),
            out@.len() == i,
            forall|j: int|
                0 <= j < i ==> #[trigger] out@[j] == (MemmapEntry {
                    base: entries@[j].base,
                    length: entries@[j].length,
                    mem_type: entries@[j].mem_type,
                }),
        decreases entries@.len() - i,
    {
        let e = entries[i];
        out.push(MemmapEntry { base: e.base, length: e.length, mem_type: e.mem_type });
        i += 1;
    }
    out
}

} // verus!
