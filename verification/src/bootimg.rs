//! Boot-image container format.
//!
//! The container opens with a little-endian 2-byte file count, followed by
//! one fixed 26-byte record per file — `{magic, name[16] NUL-padded,
//! file_offset, file_length}` — and then the raw bytes of each file at its
//! declared offset. The packaging tool reserves record space for
//! `MAX_FILES` files, so payload bytes always start at `DATA_BASE`; the
//! gap between the last record and the payload region reads as zero.

use vstd::prelude::*;
use vstd::slice::slice_subrange;

use crate::elf::{le_u16, le_u32};
use crate::error::KernelError;

verus! {

broadcast use vstd::slice::group_slice_axioms;

/// Magic value opening every file record.
pub const HEADER_MAGIC: u16 = 0x6945;

/// Number of file records the container reserves room for.
pub const MAX_FILES: usize = 64;

/// Bytes of one file record: magic, 16 name bytes, offset, length.
pub const FILE_HEADER_SIZE: usize = 26;

/// First byte of the payload region: the reserved record table plus the
/// leading count word, as the packaging tool lays it out.
pub const DATA_BASE: usize = 26 * 64 + 4;

/// One file to be packed: a name of at most 16 bytes and its payload.
#[derive(Clone, Debug)]
pub struct BootFile {
    pub name: Vec<u8>,
    pub data: Vec<u8>,
}

/// One decoded 26-byte file record.
#[derive(Clone, Debug)]
pub struct FileHeader {
    pub magic: u16,
    pub name: Vec<u8>,
    pub file_offset: u32,
    pub file_length: u32,
}

impl FileHeader {
    /// The stored name: all 16 NUL-padded bytes, as the record holds them.
    pub fn name(&self) -> (r: &Vec<u8>)
        ensures
            r@ == self.name@,
    {
        &self.name
    }
}

/// Two little-endian bytes of `x`.
pub open spec fn le2(x: u16) -> Seq<u8> {
    seq![(x % 0x100) as u8, (x / 0x100) as u8]
}

/// Four little-endian bytes of `x`.
pub open spec fn le4(x: u32) -> Seq<u8> {
    seq![
        (x % 0x100) as u8,
        (x / 0x100 % 0x100) as u8,
        (x / 0x10000 % 0x100) as u8,
        (x / 0x1000000) as u8,
    ]
}

/// A name padded with NUL bytes to the fixed 16-byte record field.
pub open spec fn padded_name(name: Seq<u8>) -> Seq<u8> {
    Seq::new(16, |i: int| if i < name.len() { name[i] } else { 0u8 })
}

/// Payload bytes of the first `i` files together.
pub open spec fn payload_before(files: Seq<BootFile>, i: int) -> int
    decreases i,
{
    if i <= 0 {
        0
    } else {
        payload_before(files, i - 1) + files[i - 1].data@.len()
    }
}

/// Offset the encoder assigns to file `i`: payloads are laid out in file
/// order from `DATA_BASE` with no gap between them.
pub open spec fn spec_offset_of(files: Seq<BootFile>, i: int) -> int {
    DATA_BASE + payload_before(files, i)
}

/// What the encoder accepts: at most `MAX_FILES` files, names that fit
/// the 16-byte field, and a layout whose offsets fit the records'
/// 32-bit words.
pub open spec fn wf_boot_files(files: Seq<BootFile>) -> bool {
    &&& files.len() <= MAX_FILES
    &&& forall|i: int| 0 <= i < files.len() ==> (#[trigger] files[i]).name@.len() <= 16
    &&& spec_offset_of(files, files.len() as int) <= u32::MAX
}

/// The 26 bytes of file `i`'s record.
pub open spec fn record_bytes(files: Seq<BootFile>, i: int) -> Seq<u8> {
    le2(HEADER_MAGIC) + padded_name(files[i].name@) + le4(spec_offset_of(files, i) as u32) + le4(
        files[i].data@.len() as u32,
    )
}

/// The record table for the first `i` files, back to back.
pub open spec fn table_bytes(files: Seq<BootFile>, i: int) -> Seq<u8>
    decreases i,
{
    if i <= 0 {
        Seq::empty()
    } else {
        table_bytes(files, i - 1) + record_bytes(files, i - 1)
    }
}

/// The payloads of the first `i` files, back to back.
pub open spec fn payload_bytes(files: Seq<BootFile>, i: int) -> Seq<u8>
    decreases i,
{
    if i <= 0 {
        Seq::empty()
    } else {
        payload_bytes(files, i - 1) + files[i - 1].data@
    }
}

/// A run of `n` zero bytes.
pub open spec fn zeros(n: int) -> Seq<u8> {
    Seq::new(if n >= 0 {
        n as nat
    } else {
        0
    }, |i: int| 0u8)
}

/// The container bytes for `files`, byte for byte: count word, record
/// table, zero fill up to the payload region, then the payloads.
pub open spec fn spec_encode(files: Seq<BootFile>) -> Seq<u8> {
    le2(files.len() as u16) + table_bytes(files, files.len() as int) + zeros(
        DATA_BASE - 2 - 26 * files.len(),
    ) + payload_bytes(files, files.len() as int)
}

/// `h` holds what the record at slot `i` of buffer `b` declares.
pub open spec fn header_matches(h: FileHeader, b: Seq<u8>, i: int) -> bool {
    let off = 2 + 26 * i;
    &&& h.magic == le_u16(b, off)
    &&& h.name@ == b.subrange(off + 2, off + 18)
    &&& h.file_offset == le_u32(b, off + 18)
    &&& h.file_length == le_u32(b, off + 22)
}

/// Appends two little-endian bytes.
fn push_u16_le(out: &mut Vec<u8>, x: u16)
    ensures
        final(out)@ == old(out)@ + le2(x),
{
    out.push((x % 0x100) as u8);
    out.push((x / 0x100) as u8);
    proof {
        assert(final(out)@ =~= old(out)@ + le2(x));
    }
}

/// Appends four little-endian bytes.
fn push_u32_le(out: &mut Vec<u8>, x: u32)
    ensures
        final(out)@ == old(out)@ + le4(x),
{
    out.push((x % 0x100) as u8);
    out.push((x / 0x100 % 0x100) as u8);
    out.push((x / 0x10000 % 0x100) as u8);
    out.push((x / 0x1000000) as u8);
    proof {
        assert(final(out)@ =~= old(out)@ + le4(x));
    }
}

/// Encodes a container holding `files`, exactly as the packaging tool
/// writes it.
pub fn encode_boot_image(files: &Vec<BootFile>) -> (r: Vec<u8>)
    requires
        wf_boot_files(files@),
    ensures
        r@ == spec_encode(files@),
{
    let n = files.len();
    let mut out: Vec<u8> = Vec::new();
    push_u16_le(&mut out, n as u16);
    let mut off: u32 = DATA_BASE as u32;
    let mut i: usize = 0;
    while i < n
        invariant
            wf_boot_files(files@),
            n == files@.len(),
            i <= n,
            off == spec_offset_of(files@, i as int),
            out@ == le2(n as u16) + table_bytes(files@, i as int),
        decreases n - i,
    {
        let ghost before = out@;
        let f = &files[i];
        proof {
            lemma_payload_before_monotonic(files@, i as int + 1, files@.len() as int);
        }
        push_u16_le(&mut out, HEADER_MAGIC);
        let ghost name_base = out@;
        let mut j: usize = 0;
        while j < 16
            invariant
                0 <= i < files@.len(),
                f == files@[i as int],
                f.name@.len() <= 16,
                j <= 16,
                out@ == name_base + padded_name(f.name@).take(j as int),
            decreases 16 - j,
        {
            let b: u8 = if j < f.name.len() {
                f.name[j]
            } else {
                0
            };
            out.push(b);
            proof {
                assert(out@ =~= name_base + padded_name(f.name@).take(j as int + 1));
            }
            j = j + 1;
        }
        proof {
            assert(padded_name(f.name@).take(16) =~= padded_name(f.name@));
        }
        push_u32_le(&mut out, off);
        push_u32_le(&mut out, f.data.len() as u32);
        off = off + f.data.len() as u32;
        i = i + 1;
        proof {
            assert(out@ =~= le2(n as u16) + table_bytes(files@, i as int));
        }
    }
    proof {
        lemma_table_bytes_len(files@, n as int);
        assert(out@ =~= le2(n as u16) + table_bytes(files@, n as int) + zeros(
            out@.len() - 2 - 26 * (n as int),
        ));
    }
    while out.len() < DATA_BASE
        invariant
            out@.len() <= DATA_BASE,
            out@.len() >= (le2(n as u16) + table_bytes(files@, n as int)).len(),
            out@ == le2(n as u16) + table_bytes(files@, n as int) + zeros(
                out@.len() - 2 - 26 * (n as int),
            ),
            n == files@.len(),
            wf_boot_files(files@),
        decreases DATA_BASE - out@.len(),
    {
        out.push(0);
        proof {
            lemma_table_bytes_len(files@, n as int);
            assert(out@ =~= le2(n as u16) + table_bytes(files@, n as int) + zeros(
                out@.len() - 2 - 26 * (n as int),
            ));
        }
    }
    proof {
        lemma_table_bytes_len(files@, n as int);
        assert(out@ =~= le2(n as u16) + table_bytes(files@, n as int) + zeros(
            DATA_BASE - 2 - 26 * (n as int),
        ) + payload_bytes(files@, 0));
    }
    let mut i: usize = 0;
    while i < n
        invariant
            wf_boot_files(files@),
            n == files@.len(),
            i <= n,
            out@ == le2(n as u16) + table_bytes(files@, n as int) + zeros(
                DATA_BASE - 2 - 26 * (n as int),
            ) + payload_bytes(files@, i as int),
        decreases n - i,
    {
        let f = &files[i];
        let ghost before = out@;
        let mut j: usize = 0;
        while j < f.data.len()
            invariant
                0 <= i < files@.len(),
                f == files@[i as int],
                j <= f.data@.len(),
                out@ == before + f.data@.take(j as int),
            decreases f.data@.len() - j,
        {
            out.push(f.data[j]);
            proof {
                assert(out@ =~= before + f.data@.take(j as int + 1));
            }
            j = j + 1;
        }
        proof {
            assert(f.data@.take(f.data@.len() as int) =~= f.data@);
            assert(out@ =~= le2(n as u16) + table_bytes(files@, n as int) + zeros(
                DATA_BASE - 2 - 26 * (n as int),
            ) + payload_bytes(files@, i as int + 1));
        }
        i = i + 1;
    }
    out
}

/// Later files sit at or past earlier files' ends: the payload prefix
/// sums are monotonic.
pub proof fn lemma_payload_before_monotonic(files: Seq<BootFile>, i: int, j: int)
    requires
        0 <= i <= j <= files.len(),
    ensures
        payload_before(files, i) <= payload_before(files, j),
    decreases j - i,
{
    if i < j {
        lemma_payload_before_monotonic(files, i, j - 1);
    }
}

/// The record table for `i` files is exactly `26 * i` bytes.
pub proof fn lemma_table_bytes_len(files: Seq<BootFile>, i: int)
    requires
        0 <= i,
    ensures
        table_bytes(files, i).len() == 26 * i,
    decreases i,
{
    if i > 0 {
        lemma_table_bytes_len(files, i - 1);
    }
}

/// The payload region for `i` files is exactly the payload prefix sum.
pub proof fn lemma_payload_bytes_len(files: Seq<BootFile>, i: int)
    requires
        0 <= i,
    ensures
        payload_bytes(files, i).len() == payload_before(files, i),
    decreases i,
{
    if i > 0 {
        lemma_payload_bytes_len(files, i - 1);
    }
}

/// Record `i` sits at bytes `26 i .. 26 i + 26` of the record table.
proof fn lemma_table_subrange(files: Seq<BootFile>, n: int, i: int)
    requires
        0 <= i < n,
        forall|k: int| 0 <= k < files.len() ==> (#[trigger] files[k]).name@.len() <= 16,
    ensures
        table_bytes(files, n).subrange(26 * i, 26 * i + 26) == record_bytes(files, i),
    decreases n,
{
    lemma_table_bytes_len(files, i);
    assert(record_bytes(files, i).len() == 26);
    if n == i + 1 {
        lemma_table_bytes_len(files, n);
        assert(table_bytes(files, n).subrange(26 * i, 26 * i + 26) =~= record_bytes(files, i));
    } else {
        lemma_table_subrange(files, n - 1, i);
        lemma_table_bytes_len(files, n - 1);
        assert(table_bytes(files, n).subrange(26 * i, 26 * i + 26) =~= table_bytes(
            files,
            n - 1,
        ).subrange(26 * i, 26 * i + 26));
    }
}

/// File `i`'s payload sits at its prefix sum inside the payload region.
proof fn lemma_payload_subrange(files: Seq<BootFile>, n: int, i: int)
    requires
        0 <= i < n <= files.len(),
    ensures
        payload_bytes(files, n).subrange(
            payload_before(files, i),
            payload_before(files, i) + files[i].data@.len(),
        ) == files[i].data@,
    decreases n,
{
    lemma_payload_bytes_len(files, i);
    lemma_payload_bytes_len(files, n);
    if n == i + 1 {
        assert(payload_bytes(files, n).subrange(
            payload_before(files, i),
            payload_before(files, i) + files[i].data@.len(),
        ) =~= files[i].data@);
    } else {
        lemma_payload_subrange(files, n - 1, i);
        lemma_payload_bytes_len(files, n - 1);
        lemma_payload_before_monotonic(files, i + 1, n - 1);
        assert(payload_bytes(files, n).subrange(
            payload_before(files, i),
            payload_before(files, i) + files[i].data@.len(),
        ) =~= payload_bytes(files, n - 1).subrange(
            payload_before(files, i),
            payload_before(files, i) + files[i].data@.len(),
        ));
    }
}

/// Reading back two little-endian bytes gives the value written.
proof fn lemma_le2_value(x: u16)
    ensures
        le2(x)[0] + le2(x)[1] * 0x100 == x,
{
    assert(x % 0x100 + (x / 0x100) * 0x100 == x) by (bit_vector);
}

/// Reading back four little-endian bytes gives the value written.
proof fn lemma_le4_value(x: u32)
    ensures
        le4(x)[0] + le4(x)[1] * 0x100 + (le4(x)[2] + le4(x)[3] * 0x100) * 0x10000 == x,
{
    assert(x % 0x100 + (x / 0x100 % 0x100) * 0x100 + ((x / 0x10000 % 0x100) + (x / 0x1000000)
        * 0x100) * 0x10000 == x) by (bit_vector);
}

/// Every field of record `i`, and file `i`'s payload, read back from the
/// encoded container exactly as assigned.
pub proof fn lemma_record_fields(files: Seq<BootFile>, i: int)
    requires
        wf_boot_files(files),
        0 <= i < files.len(),
    ensures
        le_u16(spec_encode(files), 2 + 26 * i) == HEADER_MAGIC,
        spec_encode(files).subrange(2 + 26 * i + 2, 2 + 26 * i + 18) == padded_name(
            files[i].name@,
        ),
        le_u32(spec_encode(files), 2 + 26 * i + 18) == spec_offset_of(files, i),
        le_u32(spec_encode(files), 2 + 26 * i + 22) == files[i].data@.len(),
        spec_encode(files).subrange(
            spec_offset_of(files, i),
            spec_offset_of(files, i) + files[i].data@.len(),
        ) == files[i].data@,
{
    let b = spec_encode(files);
    let n = files.len() as int;
    lemma_table_bytes_len(files, n);
    lemma_payload_bytes_len(files, n);
    lemma_payload_before_monotonic(files, 0, i);
    lemma_payload_before_monotonic(files, i, n);
    lemma_payload_before_monotonic(files, i + 1, n);
    lemma_table_subrange(files, n, i);
    let rec = record_bytes(files, i);
    let table = table_bytes(files, n);
    assert forall|k: int| 0 <= k < 26 implies b[2 + 26 * i + k] == rec[k] by {
        assert(table[26 * i + k] == table.subrange(26 * i, 26 * i + 26)[k]);
    }
    lemma_le2_value(HEADER_MAGIC);
    assert(rec[0] == le2(HEADER_MAGIC)[0] && rec[1] == le2(HEADER_MAGIC)[1]);
    assert(le_u16(b, 2 + 26 * i) == HEADER_MAGIC);
    assert forall|k: int| 0 <= k < 16 implies b[2 + 26 * i + 2 + k] == padded_name(
        files[i].name@,
    )[k] by {
        assert(b[2 + 26 * i + (2 + k)] == rec[2 + k]);
        assert(rec[2 + k] == padded_name(files[i].name@)[k]);
    }
    assert(b.subrange(2 + 26 * i + 2, 2 + 26 * i + 18) =~= padded_name(files[i].name@));
    let off = spec_offset_of(files, i) as u32;
    lemma_le4_value(off);
    assert(rec[18] == le4(off)[0] && rec[19] == le4(off)[1] && rec[20] == le4(off)[2] && rec[21]
        == le4(off)[3]);
    assert(le_u32(b, 2 + 26 * i + 18) == off);
    let flen = files[i].data@.len() as u32;
    lemma_le4_value(flen);
    assert(rec[22] == le4(flen)[0] && rec[23] == le4(flen)[1] && rec[24] == le4(flen)[2] && rec[25]
        == le4(flen)[3]);
    assert(le_u32(b, 2 + 26 * i + 22) == flen);
    let prefix = le2(files.len() as u16) + table_bytes(files, n) + zeros(DATA_BASE - 2 - 26 * n);
    assert(prefix.len() == DATA_BASE);
    assert(b =~= prefix + payload_bytes(files, n));
    lemma_payload_subrange(files, n, i);
    assert forall|k: int| 0 <= k < files[i].data@.len() implies b[spec_offset_of(files, i) + k]
        == files[i].data@[k] by {
        assert(b[prefix.len() + (payload_before(files, i) + k)] == payload_bytes(
            files,
            n,
        )[payload_before(files, i) + k]);
        assert(payload_bytes(files, n)[payload_before(files, i) + k] == payload_bytes(
            files,
            n,
        ).subrange(
            payload_before(files, i),
            payload_before(files, i) + files[i].data@.len(),
        )[k]);
    }
    assert(b.subrange(
        spec_offset_of(files, i),
        spec_offset_of(files, i) + files[i].data@.len(),
    ) =~= files[i].data@);
}

/// What any reader finds in an encoded container: the file count at the
/// front, a correct record for every file, and every payload at its
/// declared offset.
pub proof fn lemma_encode_fields(files: Seq<BootFile>)
    requires
        wf_boot_files(files),
    ensures
        spec_encode(files).len() == spec_offset_of(files, files.len() as int),
        le_u16(spec_encode(files), 0) == files.len(),
        forall|i: int|
            0 <= i < files.len() ==> #[trigger] le_u16(spec_encode(files), 2 + 26 * i)
                == HEADER_MAGIC,
        forall|i: int|
            0 <= i < files.len() ==> #[trigger] spec_encode(files).subrange(
                2 + 26 * i + 2,
                2 + 26 * i + 18,
            ) == padded_name(files[i].name@),
        forall|i: int|
            0 <= i < files.len() ==> #[trigger] le_u32(spec_encode(files), 2 + 26 * i + 18)
                == spec_offset_of(files, i),
        forall|i: int|
            0 <= i < files.len() ==> #[trigger] le_u32(spec_encode(files), 2 + 26 * i + 22)
                == files[i].data@.len(),
        forall|i: int|
            0 <= i < files.len() ==> spec_encode(files).subrange(
                spec_offset_of(files, i),
                spec_offset_of(files, i) + (#[trigger] files[i]).data@.len(),
            ) == files[i].data@,
{
    let b = spec_encode(files);
    let n = files.len() as int;
    lemma_table_bytes_len(files, n);
    lemma_payload_bytes_len(files, n);
    lemma_le2_value(n as u16);
    assert(le_u16(b, 0) == n);
    assert forall|i: int| 0 <= i < n implies #[trigger] le_u16(b, 2 + 26 * i)
        == HEADER_MAGIC by {
        lemma_record_fields(files, i);
    }
    assert forall|i: int| 0 <= i < n implies #[trigger] b.subrange(2 + 26 * i + 2, 2 + 26 * i + 18)
        == padded_name(files[i].name@) by {
        lemma_record_fields(files, i);
    }
    assert forall|i: int| 0 <= i < n implies #[trigger] le_u32(b, 2 + 26 * i + 18)
        == spec_offset_of(files, i) by {
        lemma_record_fields(files, i);
    }
    assert forall|i: int| 0 <= i < n implies #[trigger] le_u32(b, 2 + 26 * i + 22) == files[
        i
    ].data@.len() by {
        lemma_record_fields(files, i);
    }
    assert forall|i: int| 0 <= i < n implies b.subrange(
        spec_offset_of(files, i),
        spec_offset_of(files, i) + (#[trigger] files[i]).data@.len(),
    ) == files[i].data@ by {
        lemma_record_fields(files, i);
    }
}

/// A read-only view over a container held in a borrowed byte buffer.
pub struct BootImageFS<'a> {
    data: &'a [u8],
}

impl<'a> BootImageFS<'a> {
    /// The raw container bytes.
    pub closed spec fn bytes(self) -> Seq<u8> {
        self.data@
    }

    /// Wraps a borrowed container buffer.
    pub fn new(data: &'a [u8]) -> (r: BootImageFS<'a>)
        ensures
            r.bytes() == data@,
    {
        BootImageFS { data }
    }

    /// Total size of the container in bytes.
    pub fn len(&self) -> (r: usize)
        ensures
            r == self.bytes().len(),
    {
        self.data.len()
    }

    /// Reads the declared file count and every record of the table. A
    /// buffer too short for its own declared table is malformed.
    pub fn files(&self) -> (r: Result<Vec<FileHeader>, KernelError>)
        ensures
            self.bytes().len() >= 2 && 2 + 26 * le_u16(self.bytes(), 0) <= self.bytes().len()
                ==> {
                &&& r is Ok
                &&& r->Ok_0@.len() == le_u16(self.bytes(), 0)
                &&& forall|i: int|
                    0 <= i < r->Ok_0@.len() ==> header_matches(#[trigger] r->Ok_0@[i], self.bytes(), i)
            },
            !(self.bytes().len() >= 2 && 2 + 26 * le_u16(self.bytes(), 0) <= self.bytes().len())
                ==> r == Err::<Vec<FileHeader>, KernelError>(KernelError::MalformedImage),
    {
        let n = self.data.len();
        if n < 2 {
            return Err(KernelError::MalformedImage);
        }
        let count = crate::elf::read_u16(self.data, 0) as usize;
        if count > (n - 2) / 26 {
            return Err(KernelError::MalformedImage);
        }
        let mut out: Vec<FileHeader> = Vec::new();
        let mut i: usize = 0;
        while i < count
            invariant
                i <= count,
                out@.len() == i,
                2 + 26 * count <= self.bytes().len(),
                self.bytes().len() <= usize::MAX,
                forall|k: int| 0 <= k < i ==> header_matches(#[trigger] out@[k], self.bytes(), k),
            decreases count - i,
        {
            let off = 2 + 26 * i;
            let magic = crate::elf::read_u16(self.data, off);
            let mut name: Vec<u8> = Vec::new();
            let mut j: usize = 0;
            while j < 16
                invariant
                    j <= 16,
                    self.bytes().len() <= usize::MAX,
                    off + 26 <= self.bytes().len(),
                    name@.len() == j,
                    forall|k: int| 0 <= k < j ==> name@[k] == self.bytes()[off + 2 + k],
                decreases 16 - j,
            {
                name.push(self.data[off + 2 + j]);
                j = j + 1;
            }
            let file_offset = crate::elf::read_u32(self.data, off + 18);
            let file_length = crate::elf::read_u32(self.data, off + 22);
            let h = FileHeader { magic, name, file_offset, file_length };
            proof {
                assert(h.name@ =~= self.bytes().subrange(
                    2 + 26 * i + 2,
                    2 + 26 * i + 18,
                ));
            }
            out.push(h);
            i = i + 1;
        }
        Ok(out)
    }

    /// The payload bytes a record points at, read in place.
    pub fn file_data(&self, header: &FileHeader) -> (r: &[u8])
        requires
            header.file_offset + header.file_length <= self.bytes().len(),
        ensures
            r@ == self.bytes().subrange(
                header.file_offset as int,
                header.file_offset + header.file_length,
            ),
    {
        let n = self.data.len();
        slice_subrange(
            self.data,
            header.file_offset as usize,
            header.file_offset as usize + header.file_length as usize,
        )
    }
}

/// A finite, restartable walk over the decoded file records.
pub struct FileIterator {
    headers: Vec<FileHeader>,
    index: usize,
}

impl FileIterator {
    /// The records the walk will visit, in order.
    pub closed spec fn records(self) -> Seq<FileHeader> {
        self.headers@
    }

    /// How many records have been handed out already.
    pub closed spec fn at(self) -> int {
        self.index as int
    }

    pub open spec fn inv(self) -> bool {
        0 <= self.at() <= self.records().len()
    }

    /// Starts a walk at the front of the record table.
    pub fn new(headers: Vec<FileHeader>) -> (r: FileIterator)
        ensures
            r.records() == headers@,
            r.at() == 0,
            r.inv(),
    {
        FileIterator { headers, index: 0 }
    }

    /// Hands out the next record, or nothing once the table is done.
    pub fn next(&mut self) -> (r: Option<&FileHeader>)
        requires
            old(self).inv(),
        ensures
            final(self).inv(),
            final(self).records() == old(self).records(),
            old(self).at() < old(self).records().len() ==> {
                &&& r is Some
                &&& *r->Some_0 == old(self).records()[old(self).at()]
                &&& final(self).at() == old(self).at() + 1
            },
            old(self).at() == old(self).records().len() ==> {
                &&& r is None
                &&& final(self).at() == old(self).at()
            },
    {
        if self.index < self.headers.len() {
            let k = self.index;
            self.index = self.index + 1;
            Some(&self.headers[k])
        } else {
            None
        }
    }
}

/// Round trip of the container format: decoding an encoded container
/// reproduces every file's padded name, length and byte content, the
/// declared offsets never overlap, and with no empty payload they are
/// strictly increasing.
pub proof fn lemma_boot_image_round_trip(files: Seq<BootFile>, headers: Seq<FileHeader>)
    requires
        wf_boot_files(files),
        headers.len() == files.len(),
        forall|i: int|
            0 <= i < headers.len() ==> header_matches(#[trigger] headers[i], spec_encode(files), i),
    ensures
        le_u16(spec_encode(files), 0) == files.len(),
        forall|i: int|
            0 <= i < files.len() ==> (#[trigger] headers[i]).magic == HEADER_MAGIC,
        forall|i: int|
            0 <= i < files.len() ==> (#[trigger] headers[i]).name@ == padded_name(files[i].name@),
        forall|i: int|
            0 <= i < files.len() ==> (#[trigger] headers[i]).file_length == files[i].data@.len(),
        forall|i: int|
            0 <= i < files.len() ==> spec_encode(files).subrange(
                (#[trigger] headers[i]).file_offset as int,
                headers[i].file_offset + headers[i].file_length,
            ) == files[i].data@,
        forall|i: int, j: int|
            0 <= i < j < files.len() ==> (#[trigger] headers[i]).file_offset + headers[i].file_length
                <= (#[trigger] headers[j]).file_offset,
        (forall|i: int| 0 <= i < files.len() ==> (#[trigger] files[i]).data@.len() > 0)
            ==> forall|i: int, j: int|
            0 <= i < j < files.len() ==> (#[trigger] headers[i]).file_offset < (
            #[trigger] headers[j]).file_offset,
{
    lemma_encode_fields(files);
    assert forall|i: int| 0 <= i < files.len() implies {
        &&& (#[trigger] headers[i]).magic == HEADER_MAGIC
        &&& headers[i].name@ == padded_name(files[i].name@)
        &&& headers[i].file_offset == spec_offset_of(files, i)
        &&& headers[i].file_length == files[i].data@.len()
    } by {
        lemma_record_fields(files, i);
    }
    assert forall|i: int, j: int| 0 <= i < j < files.len() implies (
    #[trigger] headers[i]).file_offset + headers[i].file_length <= (
    #[trigger] headers[j]).file_offset by {
        lemma_payload_before_monotonic(files, i + 1, j);
    }
    if forall|i: int| 0 <= i < files.len() ==> (#[trigger] files[i]).data@.len() > 0 {
        assert forall|i: int, j: int| 0 <= i < j < files.len() implies (
        #[trigger] headers[i]).file_offset < (#[trigger] headers[j]).file_offset by {
            assert(files[i].data@.len() > 0);
            lemma_payload_before_monotonic(files, i + 1, j);
        }
    }
}

} // verus!
