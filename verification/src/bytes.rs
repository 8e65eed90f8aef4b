//! Little-endian fields in byte sequences.

use vstd::prelude::*;

verus! {

/// `s` with `data` written at `at`.
pub open spec fn overwrite(s: Seq<u8>, at: int, data: Seq<u8>) -> Seq<u8> {
    Seq::new(
        s.len(),
        |i: int|
            if at <= i < at + data.len() {
                data[i - at]
            } else {
                s[i]
            },
    )
}

/// The 16-bit little-endian value stored at `off`.
#[verifier::opaque]
pub open spec fn le_u16(s: Seq<u8>, off: int) -> u16 {
    (s[off] + 0x100 * s[off + 1]) as u16
}

/// The 32-bit little-endian value stored at `off`.
#[verifier::opaque]
pub open spec fn le_u32(s: Seq<u8>, off: int) -> u32 {
    (s[off] + 0x100 * s[off + 1] + 0x1_0000 * s[off + 2] + 0x100_0000 * s[off + 3]) as u32
}

/// The 64-bit little-endian value stored at `off`.
#[verifier::opaque]
pub open spec fn le_u64(s: Seq<u8>, off: int) -> u64 {
    (le_u32(s, off) + 0x1_0000_0000 * le_u32(s, off + 4)) as u64
}

/// The two bytes of `v`, least significant first.
pub open spec fn bytes16(v: u16) -> Seq<u8> {
    seq![(v % 0x100) as u8, (v / 0x100) as u8]
}

/// The four bytes of `v`, least significant first.
pub open spec fn bytes32(v: u32) -> Seq<u8> {
    seq![
        (v % 0x100) as u8,
        (v / 0x100 % 0x100) as u8,
        (v / 0x1_0000 % 0x100) as u8,
        (v / 0x100_0000) as u8,
    ]
}

/// The eight bytes of `v`, least significant first.
pub open spec fn bytes64(v: u64) -> Seq<u8> {
    bytes32((v % 0x1_0000_0000) as u32) + bytes32((v / 0x1_0000_0000) as u32)
}

/// Read the 16-bit little-endian value at `off`.
pub fn read_u16(data: &[u8], off: usize) -> (v: u16)
    requires
        off + 2 <= data@.len(),
    ensures
        v == le_u16(data@, off as int),
{
    proof {
        reveal(le_u16);
    }
    data[off] as u16 + 0x100 * (data[off + 1] as u16)
}

/// Read the 32-bit little-endian value at `off`.
pub fn read_u32(data: &[u8], off: usize) -> (v: u32)
    requires
        off + 4 <= data@.len(),
    ensures
        v == le_u32(data@, off as int),
{
    proof {
        reveal(le_u32);
    }
    data[off] as u32 + 0x100 * (data[off + 1] as u32) + 0x1_0000 * (data[off + 2] as u32)
        + 0x100_0000 * (data[off + 3] as u32)
}

/// Read the 64-bit little-endian value at `off`.
pub fn read_u64(data: &[u8], off: usize) -> (v: u64)
    requires
        off + 8 <= data@.len(),
    ensures
        v == le_u64(data@, off as int),
{
    proof {
        reveal(le_u64);
    }
    assert(off + 8 <= data.len());
    read_u32(data, off) as u64 + 0x1_0000_0000 * (read_u32(data, off + 4) as u64)
}

pub fn u64_bytes(v: u64) -> (r: [u8; 8])
    ensures
        r@ == bytes64(v),
        le_u64(r@, 0) == v,
{
    let lo = u32_bytes((v % 0x1_0000_0000) as u32);
    let hi = u32_bytes((v / 0x1_0000_0000) as u32);
    let r: [u8; 8] = [lo[0], lo[1], lo[2], lo[3], hi[0], hi[1], hi[2], hi[3]];
    assert(r@ =~= bytes64(v));
    proof {
        lemma_le_u32_same(r@, 0, lo@, 0);
        lemma_le_u32_same(r@, 4, hi@, 0);
        reveal(le_u64);
    }
    r
}

/// A field's value depends on its own bytes only.
pub proof fn lemma_le_u64_same(a: Seq<u8>, i: int, b: Seq<u8>, j: int)
    requires
        forall|k: int| 0 <= k < 8 ==> #[trigger] a[i + k] == b[j + k],
    ensures
        le_u64(a, i) == le_u64(b, j),
{
    reveal(le_u32);
    reveal(le_u64);
    assert(a[i + 0] == b[j + 0]);
    assert(a[i + 1] == b[j + 1]);
    assert(a[i + 2] == b[j + 2]);
    assert(a[i + 3] == b[j + 3]);
    assert(a[i + 4] == b[j + 4]);
    assert(a[i + 5] == b[j + 5]);
    assert(a[i + 6] == b[j + 6]);
    assert(a[i + 7] == b[j + 7]);
}

pub fn u16_bytes(v: u16) -> (r: [u8; 2])
    ensures
        r@ == bytes16(v),
        le_u16(r@, 0) == v,
{
    let r: [u8; 2] = [(v % 0x100) as u8, (v / 0x100) as u8];
    assert(r@ =~= bytes16(v));
    proof {
        reveal(le_u16);
    }
    r
}

pub fn u32_bytes(v: u32) -> (r: [u8; 4])
    ensures
        r@ == bytes32(v),
        le_u32(r@, 0) == v,
{
    let r: [u8; 4] = [
        (v % 0x100) as u8,
        (v / 0x100 % 0x100) as u8,
        (v / 0x1_0000 % 0x100) as u8,
        (v / 0x100_0000) as u8,
    ];
    assert(r@ =~= bytes32(v));
    proof {
        reveal(le_u32);
    }
    r
}

/// A field's value depends on its own bytes only.
pub proof fn lemma_le_u32_same(a: Seq<u8>, i: int, b: Seq<u8>, j: int)
    requires
        forall|k: int| 0 <= k < 4 ==> #[trigger] a[i + k] == b[j + k],
    ensures
        le_u32(a, i) == le_u32(b, j),
{
    reveal(le_u32);
    assert(a[i + 0] == b[j + 0]);
    assert(a[i + 1] == b[j + 1]);
    assert(a[i + 2] == b[j + 2]);
    assert(a[i + 3] == b[j + 3]);
}

/// A field's value depends on its own bytes only.
pub proof fn lemma_le_u16_same(a: Seq<u8>, i: int, b: Seq<u8>, j: int)
    requires
        forall|k: int| 0 <= k < 2 ==> #[trigger] a[i + k] == b[j + k],
    ensures
        le_u16(a, i) == le_u16(b, j),
{
    reveal(le_u16);
    assert(a[i + 0] == b[j + 0]);
    assert(a[i + 1] == b[j + 1]);
}

/// Write `data` over the bytes of `v` at `at`.
pub fn put_bytes(v: &mut Vec<u8>, at: usize, data: &[u8])
    requires
        at + data@.len() <= old(v)@.len(),
    ensures
        final(v)@ == overwrite(old(v)@, at as int, data@),
{
    let ghost before = v@;
    assert(at + data.len() <= v.len());
    let mut i: usize = 0;
    while i < data.len()
        invariant
            i <= data@.len(),
            at + data@.len() <= before.len() <= usize::MAX,
            v@ == overwrite(before, at as int, data@.take(i as int)),
        decreases data@.len() - i,
    {
        v.set(at + i, data[i]);
        i += 1;
        assert(v@ =~= overwrite(before, at as int, data@.take(i as int)));
    }
    assert(data@.take(data@.len() as int) =~= data@);
}

/// The bytes of a value stand for it.
pub proof fn bytes_round_trip(a: u16, b: u32, c: u64)
    ensures
        le_u16(bytes16(a), 0) == a,
        le_u32(bytes32(b), 0) == b,
        le_u64(bytes64(c), 0) == c,
{
    reveal(le_u16);
    lemma_bytes32(b);
    let lo = (c % 0x1_0000_0000) as u32;
    let hi = (c / 0x1_0000_0000) as u32;
    lemma_bytes32(lo);
    lemma_bytes32(hi);
    lemma_le_u32_same(bytes64(c), 0, bytes32(lo), 0);
    lemma_le_u32_same(bytes64(c), 4, bytes32(hi), 0);
    reveal(le_u64);
}

proof fn lemma_bytes32(b: u32)
    ensures
        le_u32(bytes32(b), 0) == b,
{
    reveal(le_u32);
}

} // verus!
