//! Executable image loader.
//!
//! An image is a 64-bit ELF-style header followed by a program-header
//! table, both read in place from a borrowed byte buffer; nothing of the
//! image is copied. Only segments of type LOAD are actionable. The loader
//! performs one structural validation: the declared program-header stride
//! must equal the fixed record size, else the image is malformed.

use vstd::prelude::*;
use vstd::slice::slice_subrange;

use crate::error::KernelError;

verus! {

broadcast use vstd::slice::group_slice_axioms;

/// Size in bytes of the fixed image header.
pub const HEADER_SIZE: usize = 64;

/// Size in bytes of one program-header record; the declared stride must
/// equal it.
pub const PROGRAM_HEADER_SIZE: usize = 56;

/// Record tag of a loadable segment.
pub const SEGMENT_TYPE_LOAD: u32 = 1;

/// Little-endian value of two bytes of `b` starting at `off`.
pub open spec fn le_u16(b: Seq<u8>, off: int) -> int {
    b[off] + b[off + 1] * 0x100
}

/// Little-endian value of four bytes of `b` starting at `off`.
pub open spec fn le_u32(b: Seq<u8>, off: int) -> int {
    le_u16(b, off) + le_u16(b, off + 2) * 0x10000
}

/// Little-endian value of eight bytes of `b` starting at `off`.
pub open spec fn le_u64(b: Seq<u8>, off: int) -> int {
    le_u32(b, off) + le_u32(b, off + 4) * 0x100000000
}

/// Reads two little-endian bytes.
pub fn read_u16(data: &[u8], off: usize) -> (r: u16)
    requires
        off + 2 <= data@.len(),
    ensures
        r == le_u16(data@, off as int),
{
    // Materializes the buffer's length so its machine bound is known.
    let n = data.len();
    let b0 = data[off] as u16;
    let b1 = data[off + 1] as u16;
    b0 + b1 * 0x100
}

/// Reads four little-endian bytes.
pub fn read_u32(data: &[u8], off: usize) -> (r: u32)
    requires
        off + 4 <= data@.len(),
    ensures
        r == le_u32(data@, off as int),
{
    // Materializes the buffer's length so its machine bound is known.
    let n = data.len();
    let lo = read_u16(data, off) as u32;
    let hi = read_u16(data, off + 2) as u32;
    lo + hi * 0x10000
}

/// Reads eight little-endian bytes.
pub fn read_u64(data: &[u8], off: usize) -> (r: u64)
    requires
        off + 8 <= data@.len(),
    ensures
        r == le_u64(data@, off as int),
{
    // Materializes the buffer's length so its machine bound is known.
    let n = data.len();
    let lo = read_u32(data, off) as u64;
    let hi = read_u32(data, off + 4) as u64;
    lo + hi * 0x100000000
}

/// Machine tag of the image header.
#[derive(Clone, Copy, Debug, PartialEq, Eq, Structural)]
pub enum Machine {
    NoMachine,
    M32,
    SPARC,
    I386,
    M68K,
    M88K,
    I860,
    MIPS,
    PowerPC,
    ARM,
    SuperH,
    IA64,
    Amd64,
    AArch64,
    RISCV,
}

/// Object-file kind of the image header.
#[derive(Clone, Copy, Debug, PartialEq, Eq, Structural)]
pub enum FileType {
    NoType,
    Relocatable,
    Executable,
    SharedObject,
    Core,
}

/// Word width declared by the image header.
#[derive(Clone, Copy, Debug, PartialEq, Eq, Structural)]
pub enum BitSize {
    X32,
    X64,
}

/// Byte order declared by the image header.
#[derive(Clone, Copy, Debug, PartialEq, Eq, Structural)]
pub enum Endianess {
    Little,
    Big,
}

/// The fixed 64-byte image header, read in place from the buffer.
#[derive(Clone, Copy, Debug, PartialEq, Eq, Structural)]
pub struct Header {
    pub ident: u32,
    pub bits: u8,
    pub endianess: u8,
    pub abi: u8,
    pub header_version: u8,
    pub file_type: u16,
    pub machine: u16,
    pub version: u32,
    /// Declared entry point of the image, reinterpreted as a callable
    /// address once the image is loaded.
    pub entry: u64,
    pub prg_header_tbl: u64,
    pub sec_header_tbl: u64,
    pub flags: u32,
    pub header_size: u16,
    pub prg_entry_size: u16,
    pub prg_entry_count: u16,
    pub sec_entry_size: u16,
    pub sec_entry_count: u16,
    pub sec_str_index: u16,
}

/// What the header of buffer `b` holds, field by field.
pub open spec fn spec_header(b: Seq<u8>) -> Header {
    Header {
        ident: le_u32(b, 0) as u32,
        bits: b[4],
        endianess: b[5],
        abi: b[6],
        header_version: b[7],
        file_type: le_u16(b, 16) as u16,
        machine: le_u16(b, 18) as u16,
        version: le_u32(b, 20) as u32,
        entry: le_u64(b, 24) as u64,
        prg_header_tbl: le_u64(b, 32) as u64,
        sec_header_tbl: le_u64(b, 40) as u64,
        flags: le_u32(b, 48) as u32,
        header_size: le_u16(b, 52) as u16,
        prg_entry_size: le_u16(b, 54) as u16,
        prg_entry_count: le_u16(b, 56) as u16,
        sec_entry_size: le_u16(b, 58) as u16,
        sec_entry_count: le_u16(b, 60) as u16,
        sec_str_index: le_u16(b, 62) as u16,
    }
}

/// Permission flag values of a program header.
#[derive(Clone, Copy, Debug, PartialEq, Eq, Structural)]
pub enum ProgramHeaderFlags {
    Executable,
    Writable,
    Readable,
}

impl ProgramHeaderFlags {
    pub open spec fn spec_bit(self) -> u32 {
        match self {
            ProgramHeaderFlags::Executable => 1,
            ProgramHeaderFlags::Writable => 2,
            ProgramHeaderFlags::Readable => 4,
        }
    }

    /// Bit this flag occupies in a program header's flag word.
    pub fn bit(&self) -> (r: u32)
        ensures
            r == self.spec_bit(),
    {
        match self {
            ProgramHeaderFlags::Executable => 1,
            ProgramHeaderFlags::Writable => 2,
            ProgramHeaderFlags::Readable => 4,
        }
    }
}

/// Segment kinds a program header can declare.
#[derive(Clone, Copy, Debug, PartialEq, Eq, Structural)]
pub enum SegmentType {
    Null,
    Load,
    Dynamic,
    Interpret,
    Note,
    Reserved,
    ProgramHeader,
    Unknown,
}

impl SegmentType {
    pub open spec fn spec_from_u32(tag: u32) -> SegmentType {
        if tag == 0 {
            SegmentType::Null
        } else if tag == 1 {
            SegmentType::Load
        } else if tag == 2 {
            SegmentType::Dynamic
        } else if tag == 3 {
            SegmentType::Interpret
        } else if tag == 4 {
            SegmentType::Note
        } else if tag == 5 {
            SegmentType::Reserved
        } else if tag == 6 {
            SegmentType::ProgramHeader
        } else {
            SegmentType::Unknown
        }
    }

    /// Decodes a program header's segment-type tag.
    pub fn from_u32(tag: u32) -> (r: SegmentType)
        ensures
            r == SegmentType::spec_from_u32(tag),
    {
        match tag {
            0 => SegmentType::Null,
            1 => SegmentType::Load,
            2 => SegmentType::Dynamic,
            3 => SegmentType::Interpret,
            4 => SegmentType::Note,
            5 => SegmentType::Reserved,
            6 => SegmentType::ProgramHeader,
            _ => SegmentType::Unknown,
        }
    }
}

/// One fixed 56-byte program-header record. Only `segment_type == LOAD`
/// is acted on; `file_size` bytes at `file_offset` back the first part of
/// the `mem_size`-byte memory range at `virtual_address`.
#[derive(Clone, Copy, Debug, PartialEq, Eq, Structural)]
pub struct ProgramHeader {
    pub segment_type: u32,
    pub flags: u32,
    pub file_offset: u64,
    pub virtual_address: u64,
    pub physical_address: u64,
    pub file_size: u64,
    pub mem_size: u64,
    pub align: u64,
}

impl ProgramHeader {
    /// Whether this record declares a loadable segment.
    pub open spec fn spec_is_load(self) -> bool {
        self.segment_type == SEGMENT_TYPE_LOAD
    }

    pub fn is_load(&self) -> (r: bool)
        ensures
            r == self.spec_is_load(),
    {
        self.segment_type == SEGMENT_TYPE_LOAD
    }
}

/// What the program-header record at `off` in buffer `b` holds.
pub open spec fn spec_program_header(b: Seq<u8>, off: int) -> ProgramHeader {
    ProgramHeader {
        segment_type: le_u32(b, off) as u32,
        flags: le_u32(b, off + 4) as u32,
        file_offset: le_u64(b, off + 8) as u64,
        virtual_address: le_u64(b, off + 16) as u64,
        physical_address: le_u64(b, off + 24) as u64,
        file_size: le_u64(b, off + 32) as u64,
        mem_size: le_u64(b, off + 40) as u64,
        align: le_u64(b, off + 48) as u64,
    }
}

/// A parsed view over a borrowed image buffer. The view borrows the
/// buffer and never copies it.
pub struct ElfFile<'a> {
    data: &'a [u8],
}

impl<'a> ElfFile<'a> {
    /// The raw bytes of the image.
    pub closed spec fn bytes(self) -> Seq<u8> {
        self.data@
    }

    /// A buffer can hold a header and the program-header table it
    /// declares, with the stride the loader expects.
    pub open spec fn spec_well_formed(b: Seq<u8>) -> bool {
        &&& b.len() >= 64
        &&& spec_header(b).prg_entry_size == PROGRAM_HEADER_SIZE
        &&& spec_header(b).prg_header_tbl + 56 * spec_header(b).prg_entry_count <= b.len()
    }

    /// Wraps a borrowed buffer; nothing is validated yet.
    pub fn new(data: &'a [u8]) -> (r: ElfFile<'a>)
        ensures
            r.bytes() == data@,
    {
        ElfFile { data }
    }

    /// Reads the fixed header. A buffer too short to hold one is a
    /// malformed image.
    pub fn header(&self) -> (r: Result<Header, KernelError>)
        ensures
            self.bytes().len() >= 64 ==> r == Ok::<Header, KernelError>(spec_header(self.bytes())),
            self.bytes().len() < 64 ==> r == Err::<Header, KernelError>(KernelError::MalformedImage),
    {
        if self.data.len() < HEADER_SIZE {
            return Err(KernelError::MalformedImage);
        }
        Ok(
            Header {
                ident: read_u32(self.data, 0),
                bits: self.data[4],
                endianess: self.data[5],
                abi: self.data[6],
                header_version: self.data[7],
                file_type: read_u16(self.data, 16),
                machine: read_u16(self.data, 18),
                version: read_u32(self.data, 20),
                entry: read_u64(self.data, 24),
                prg_header_tbl: read_u64(self.data, 32),
                sec_header_tbl: read_u64(self.data, 40),
                flags: read_u32(self.data, 48),
                header_size: read_u16(self.data, 52),
                prg_entry_size: read_u16(self.data, 54),
                prg_entry_count: read_u16(self.data, 56),
                sec_entry_size: read_u16(self.data, 58),
                sec_entry_count: read_u16(self.data, 60),
                sec_str_index: read_u16(self.data, 62),
            },
        )
    }

    /// Reads the whole program-header table. The declared stride must be
    /// the fixed record size and the declared table must lie inside the
    /// buffer; otherwise the image is malformed.
    pub fn program_headers(&self) -> (r: Result<Vec<ProgramHeader>, KernelError>)
        ensures
            Self::spec_well_formed(self.bytes()) ==> {
                &&& r is Ok
                &&& r->Ok_0@.len() == spec_header(self.bytes()).prg_entry_count
                &&& forall|j: int|
                    0 <= j < r->Ok_0@.len() ==> r->Ok_0@[j] == spec_program_header(
                        self.bytes(),
                        spec_header(self.bytes()).prg_header_tbl + 56 * j,
                    )
            },
            !Self::spec_well_formed(self.bytes()) ==> r == Err::<
                Vec<ProgramHeader>,
                KernelError,
            >(KernelError::MalformedImage),
    {
        let header = match self.header() {
            Ok(h) => h,
            Err(e) => {
                return Err(e);
            },
        };
        if header.prg_entry_size as usize != PROGRAM_HEADER_SIZE {
            return Err(KernelError::MalformedImage);
        }
        let n = self.data.len();
        let count = header.prg_entry_count as usize;
        let base = header.prg_header_tbl;
        if base > u64::MAX - 56 * count as u64 {
            return Err(KernelError::MalformedImage);
        }
        if base + 56 * count as u64 > n as u64 {
            return Err(KernelError::MalformedImage);
        }
        let base = base as usize;
        let mut out: Vec<ProgramHeader> = Vec::new();
        let mut j: usize = 0;
        while j < count
            invariant
                j <= count,
                out@.len() == j,
                self.data@.len() <= usize::MAX,
                base + 56 * count <= self.data@.len(),
                base == spec_header(self.data@).prg_header_tbl,
                count == spec_header(self.data@).prg_entry_count,
                forall|k: int|
                    0 <= k < j ==> out@[k] == spec_program_header(self.data@, base + 56 * k),
            decreases count - j,
        {
            let off = base + 56 * j;
            out.push(
                ProgramHeader {
                    segment_type: read_u32(self.data, off),
                    flags: read_u32(self.data, off + 4),
                    file_offset: read_u64(self.data, off + 8),
                    virtual_address: read_u64(self.data, off + 16),
                    physical_address: read_u64(self.data, off + 24),
                    file_size: read_u64(self.data, off + 32),
                    mem_size: read_u64(self.data, off + 40),
                    align: read_u64(self.data, off + 48),
                },
            );
            j = j + 1;
        }
        Ok(out)
    }

    /// The file bytes backing a segment: exactly `file_size` bytes at
    /// `file_offset`, or nothing for a pure-bss segment that owns no
    /// file bytes.
    pub fn segment(&self, header: &ProgramHeader) -> (r: Option<&[u8]>)
        requires
            header.file_offset + header.file_size <= self.bytes().len(),
        ensures
            header.file_size > 0 ==> {
                &&& r is Some
                &&& r->Some_0@ == self.bytes().subrange(
                    header.file_offset as int,
                    header.file_offset + header.file_size,
                )
            },
            header.file_size == 0 ==> r is None,
    {
        // Materializes the buffer's length so its machine bound is
        // known.
        let n = self.data.len();
        if header.file_size > 0 {
            Some(
                slice_subrange(
                    self.data,
                    header.file_offset as usize,
                    (header.file_offset + header.file_size) as usize,
                ),
            )
        } else {
            None
        }
    }
}

/// A finite, restartable walk over the parsed program-header table.
pub struct ProgramHeaderIterator {
    headers: Vec<ProgramHeader>,
    index: usize,
}

impl ProgramHeaderIterator {
    /// The records the walk will visit, in order.
    pub closed spec fn records(self) -> Seq<ProgramHeader> {
        self.headers@
    }

    /// How many records have been handed out already.
    pub closed spec fn at(self) -> int {
        self.index as int
    }

    pub open spec fn inv(self) -> bool {
        0 <= self.at() <= self.records().len()
    }

    /// Starts a walk at the front of the table.
    pub fn new(headers: Vec<ProgramHeader>) -> (r: ProgramHeaderIterator)
        ensures
            r.records() == headers@,
            r.at() == 0,
            r.inv(),
    {
        ProgramHeaderIterator { headers, index: 0 }
    }

    /// Hands out the next record, or nothing once the table is done.
    pub fn next(&mut self) -> (r: Option<ProgramHeader>)
        requires
            old(self).inv(),
        ensures
            final(self).inv(),
            final(self).records() == old(self).records(),
            old(self).at() < old(self).records().len() ==> {
                &&& r == Some(old(self).records()[old(self).at()])
                &&& final(self).at() == old(self).at() + 1
            },
            old(self).at() == old(self).records().len() ==> {
                &&& r is None
                &&& final(self).at() == old(self).at()
            },
    {
        if self.index < self.headers.len() {
            let r = self.headers[self.index];
            self.index = self.index + 1;
            Some(r)
        } else {
            None
        }
    }
}

} // verus!
