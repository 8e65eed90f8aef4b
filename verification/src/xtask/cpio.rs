//! Packing files into an archive in the "newc" format.

use vstd::prelude::*;

verus! {

/// The hexadecimal digit of `n`, in upper case.
pub open spec fn upper_digit(n: nat) -> u8 {
    if n < 10 {
        (48 + n) as u8
    } else {
        (55 + n) as u8
    }
}

/// The lowest `width` hexadecimal digits of `n`.
pub open spec fn upper_hex(n: nat, width: nat) -> Seq<u8>
    decreases width,
{
    if width == 0 {
        Seq::empty()
    } else {
        upper_hex(n / 16, (width - 1) as nat).push(upper_digit(n % 16))
    }
}

/// How many bytes are missing to a multiple of four.
pub open spec fn padding(len: int) -> int {
    (4 - len % 4) % 4
}

/// That many NULs.
pub open spec fn nuls(n: int) -> Seq<u8> {
    Seq::new(n as nat, |i: int| 0u8)
}

/// The header of a record: a magic number and thirteen numbers of eight digits.
pub open spec fn header(name_len: int, mode: u32, size: u32) -> Seq<u8> {
    let none = upper_hex(0, 8);
    seq![0x30u8, 0x37, 0x30, 0x37, 0x30, 0x31] + none + upper_hex(mode as nat, 8) + none + none
        + upper_hex(1, 8) + none + upper_hex(size as nat, 8) + none + none + none + none + upper_hex(
        (name_len + 1) as nat,
        8,
    ) + none
}

/// One file of an archive: its header, its name with a NUL, and its contents,
/// each filled up to a multiple of four bytes.
pub open spec fn record(name: Seq<u8>, mode: u32, data: Seq<u8>) -> Seq<u8> {
    header(name.len() as int, mode, data.len() as u32) + name.push(0) + nuls(
        padding(111 + name.len() as int),
    ) + data + nuls(padding(data.len() as int))
}

fn upper(n: u32) -> (r: u8)
    requires
        n < 16,
    ensures
        r == upper_digit(n as nat),
{
    if n < 10 {
        48 + n as u8
    } else {
        55 + n as u8
    }
}

fn push_upper(out: &mut Vec<u8>, n: u32, width: usize)
    ensures
        final(out)@ == old(out)@ + upper_hex(n as nat, width as nat),
    decreases width,
{
    if width == 0 {
        assert(out@ =~= old(out)@ + upper_hex(n as nat, 0));
    } else {
        push_upper(out, n / 16, width - 1);
        out.push(upper(n % 16));
        assert(out@ =~= old(out)@ + upper_hex(n as nat, width as nat));
    }
}

fn field(out: &mut Vec<u8>, v: u32)
    ensures
        final(out)@ == old(out)@ + upper_hex(v as nat, 8),
{
    push_upper(out, v, 8);
}

fn pad4(out: &mut Vec<u8>, len: usize)
    ensures
        final(out)@ == old(out)@ + nuls(padding(len as int)),
{
    let n: usize = (4 - len % 4) % 4;
    let mut i: usize = 0;
    assert(out@ + nuls(0) =~= out@);
    while i < n
        invariant
            i <= n,
            out@ == old(out)@ + nuls(i as int),
        decreases n - i,
    {
        out.push(0);
        i += 1;
        assert(out@ =~= old(out)@ + nuls(i as int));
    }
}

fn push_header(out: &mut Vec<u8>, name_len: u32, mode: u32, size: u32)
    requires
        name_len < u32::MAX,
    ensures
        final(out)@ == old(out)@ + header(name_len as int, mode, size),
{
    let magic: [u8; 6] = [0x30, 0x37, 0x30, 0x37, 0x30, 0x31];
    out.extend_from_slice(&magic);
    assert(magic@ =~= seq![0x30u8, 0x37, 0x30, 0x37, 0x30, 0x31]);
    field(out, 0);
    field(out, mode);
    field(out, 0);
    field(out, 0);
    field(out, 1);
    field(out, 0);
    field(out, size);
    field(out, 0);
    field(out, 0);
    field(out, 0);
    field(out, 0);
    field(out, name_len + 1);
    field(out, 0);
    assert(out@ =~= old(out)@ + header(name_len as int, mode, size));
}

/// Append one file to an archive.
pub fn cpio_newc_record(out: &mut Vec<u8>, name: &[u8], mode: u32, data: &[u8])
    requires
        name@.len() < u32::MAX,
    ensures
        final(out)@ == old(out)@ + record(name@, mode, data@),
{
    push_header(out, name.len() as u32, mode, data.len() as u32);
    out.extend_from_slice(name);
    out.push(0);
    // The header's 110 bytes and the zero behind the name leave 3 over a multiple of 4.
    pad4(out, name.len() % 4 + 3);
    out.extend_from_slice(data);
    pad4(out, data.len());
    assert(out@ =~= old(out)@ + record(name@, mode, data@));
}

proof fn lemma_upper_len(n: nat, width: nat)
    ensures
        upper_hex(n, width).len() == width,
    decreases width,
{
    if width > 0 {
        lemma_upper_len(n / 16, (width - 1) as nat);
    }
}

/// A header has 110 bytes, and every record a multiple of four, so that the
/// next one starts on a boundary; the name and the contents are found where the
/// header says.
pub proof fn records_are_aligned(name: Seq<u8>, mode: u32, data: Seq<u8>)
    ensures
        header(name.len() as int, mode, data.len() as u32).len() == 110,
        record(name, mode, data).len() % 4 == 0,
        record(name, mode, data).subrange(110, 110 + name.len() as int) == name,
        ({
            let at = 111 + name.len() as int + padding(111 + name.len() as int);
            &&& at % 4 == 0
            &&& record(name, mode, data).subrange(at, at + data.len() as int) == data
        }),
{
    lemma_upper_len(0, 8);
    lemma_upper_len(1, 8);
    lemma_upper_len(mode as nat, 8);
    lemma_upper_len(data.len() as u32 as nat, 8);
    lemma_upper_len((name.len() + 1) as nat, 8);
    let h = header(name.len() as int, mode, data.len() as u32);
    let r = record(name, mode, data);
    let at = 111 + name.len() as int + padding(111 + name.len() as int);
    assert(h.len() == 110);
    assert(r.subrange(110, 110 + name.len() as int) =~= name);
    assert(r.subrange(at, at + data.len() as int) =~= data);
}

/// A file to be packed.
pub struct Member {
    pub name: Vec<u8>,
    pub mode: u32,
    pub data: Vec<u8>,
}

/// The mode of a directory.
pub const DIR_MODE: u32 = 0x41ed;

/// The records of the first `n` files.
pub open spec fn member_records(m: Seq<Member>, n: nat) -> Seq<u8>
    decreases n,
{
    if n == 0 {
        Seq::empty()
    } else {
        member_records(m, (n - 1) as nat) + record(m[n - 1].name@, m[n - 1].mode, m[n - 1].data@)
    }
}

/// The archive that the system starts with: the directories `tmp` and `bin`,
/// the files, and the record that ends it.
pub open spec fn initrd(m: Seq<Member>) -> Seq<u8> {
    record(seq![0x74u8, 0x6d, 0x70], DIR_MODE, Seq::empty()) + record(
        seq![0x62u8, 0x69, 0x6e],
        DIR_MODE,
        Seq::empty(),
    ) + member_records(m, m.len()) + record(
        seq![0x54u8, 0x52, 0x41, 0x49, 0x4c, 0x45, 0x52, 0x21, 0x21, 0x21],
        0,
        Seq::empty(),
    )
}

/// Pack the archive that the system starts with.
pub fn mkinitrd(members: &[Member]) -> (r: Vec<u8>)
    requires
        forall|i: int|
            0 <= i < members@.len() ==> (#[trigger] members@[i]).name@.len() < u32::MAX,
    ensures
        r@ == initrd(members@),
{
    let mut out: Vec<u8> = Vec::new();
    let tmp: [u8; 3] = [0x74, 0x6d, 0x70];
    let bin: [u8; 3] = [0x62, 0x69, 0x6e];
    let end: [u8; 10] = [0x54, 0x52, 0x41, 0x49, 0x4c, 0x45, 0x52, 0x21, 0x21, 0x21];
    let nothing: [u8; 0] = [];
    assert(tmp@ =~= seq![0x74u8, 0x6d, 0x70]);
    assert(bin@ =~= seq![0x62u8, 0x69, 0x6e]);
    assert(end@ =~= seq![0x54u8, 0x52, 0x41, 0x49, 0x4c, 0x45, 0x52, 0x21, 0x21, 0x21]);
    assert(nothing@ =~= Seq::<u8>::empty());
    cpio_newc_record(&mut out, &tmp, DIR_MODE, &nothing);
    cpio_newc_record(&mut out, &bin, DIR_MODE, &nothing);
    let ghost head = out@;
    assert(head =~= record(tmp@, DIR_MODE, nothing@) + record(bin@, DIR_MODE, nothing@));
    let mut i: usize = 0;
    assert(out@ =~= head + member_records(members@, 0));
    while i < members.len()
        invariant
            i <= members@.len(),
            forall|k: int|
                0 <= k < members@.len() ==> (#[trigger] members@[k]).name@.len() < u32::MAX,
            out@ == head + member_records(members@, i as nat),
        decreases members@.len() - i,
    {
        let m = &members[i];
        cpio_newc_record(&mut out, m.name.as_slice(), m.mode, m.data.as_slice());
        i += 1;
        assert(out@ =~= head + member_records(members@, i as nat));
    }
    cpio_newc_record(&mut out, &end, 0, &nothing);
    assert(out@ =~= initrd(members@));
    out
}

} // verus!
