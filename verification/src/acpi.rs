//! Firmware configuration tables, read as fixed-size records out of
//! borrowed byte buffers: the common system-description header, the
//! table directory, the PCI configuration-space table and the
//! interrupt-controller table.

use vstd::prelude::*;

use crate::elf::{le_u16, le_u32, le_u64, read_u16, read_u32, read_u64};
use crate::error::KernelError;

verus! {

broadcast use vstd::slice::group_slice_axioms;

/// Bytes of the common system-description header.
pub const ACPI_HEADER_SIZE: usize = 36;

/// The table signatures the core looks up in the directory.
#[derive(Clone, Copy, Debug, PartialEq, Eq, Structural)]
pub enum Signature {
    MADT,
    FADT,
    MCFG,
}

impl Signature {
    pub open spec fn spec_as_bytes(self) -> Seq<u8> {
        match self {
            Signature::MADT => seq![0x41u8, 0x50u8, 0x49u8, 0x43u8],
            Signature::FADT => seq![0x46u8, 0x41u8, 0x43u8, 0x50u8],
            Signature::MCFG => seq![0x4Du8, 0x43u8, 0x46u8, 0x47u8],
        }
    }

    /// The four signature bytes as they stand in a table header.
    pub fn as_bytes(&self) -> (r: [u8; 4])
        ensures
            r@ == self.spec_as_bytes(),
    {
        let r: [u8; 4] = match self {
            Signature::MADT => [0x41, 0x50, 0x49, 0x43],
            Signature::FADT => [0x46, 0x41, 0x43, 0x50],
            Signature::MCFG => [0x4D, 0x43, 0x46, 0x47],
        };
        proof {
            assert(r@ =~= self.spec_as_bytes());
        }
        r
    }
}

/// The common header every system-description table opens with.
#[derive(Clone, Debug)]
pub struct Header {
    pub signature: Vec<u8>,
    pub length: u32,
    pub revision: u8,
    pub checksum: u8,
    pub oem: Vec<u8>,
    pub oem_table: Vec<u8>,
    pub oem_revision: u32,
    pub creator: u32,
    pub creator_revision: u32,
}

/// `h` holds what the header record at `off` in `b` declares.
pub open spec fn header_matches(h: Header, b: Seq<u8>, off: int) -> bool {
    &&& h.signature@ == b.subrange(off, off + 4)
    &&& h.length == le_u32(b, off + 4)
    &&& h.revision == b[off + 8]
    &&& h.checksum == b[off + 9]
    &&& h.oem@ == b.subrange(off + 10, off + 16)
    &&& h.oem_table@ == b.subrange(off + 16, off + 24)
    &&& h.oem_revision == le_u32(b, off + 24)
    &&& h.creator == le_u32(b, off + 28)
    &&& h.creator_revision == le_u32(b, off + 32)
}

impl Header {
    /// The table's four signature bytes.
    pub fn signature(&self) -> (r: &Vec<u8>)
        ensures
            r@ == self.signature@,
    {
        &self.signature
    }

    /// Reads the common header at `off`; a buffer too short for it is a
    /// malformed table.
    pub fn parse(data: &[u8], off: usize) -> (r: Result<Header, KernelError>)
        ensures
            off + ACPI_HEADER_SIZE <= data@.len() ==> r is Ok && header_matches(
                r->Ok_0,
                data@,
                off as int,
            ),
            off + ACPI_HEADER_SIZE > data@.len() ==> r == Err::<Header, KernelError>(
                KernelError::MalformedImage,
            ),
    {
        let n = data.len();
        if off > n || n - off < ACPI_HEADER_SIZE {
            return Err(KernelError::MalformedImage);
        }
        let mut signature: Vec<u8> = Vec::new();
        let mut i: usize = 0;
        while i < 4
            invariant
                off + 36 <= data@.len() <= usize::MAX,
                i <= 4,
                signature@.len() == i,
                forall|k: int| 0 <= k < i ==> signature@[k] == data@[off + k],
            decreases 4 - i,
        {
            signature.push(data[off + i]);
            i = i + 1;
        }
        let mut oem: Vec<u8> = Vec::new();
        let mut i: usize = 0;
        while i < 6
            invariant
                off + 36 <= data@.len() <= usize::MAX,
                i <= 6,
                oem@.len() == i,
                forall|k: int| 0 <= k < i ==> oem@[k] == data@[off + 10 + k],
            decreases 6 - i,
        {
            oem.push(data[off + 10 + i]);
            i = i + 1;
        }
        let mut oem_table: Vec<u8> = Vec::new();
        let mut i: usize = 0;
        while i < 8
            invariant
                off + 36 <= data@.len() <= usize::MAX,
                i <= 8,
                oem_table@.len() == i,
                forall|k: int| 0 <= k < i ==> oem_table@[k] == data@[off + 16 + k],
            decreases 8 - i,
        {
            oem_table.push(data[off + 16 + i]);
            i = i + 1;
        }
        let h = Header {
            signature,
            length: read_u32(data, off + 4),
            revision: data[off + 8],
            checksum: data[off + 9],
            oem,
            oem_table,
            oem_revision: read_u32(data, off + 24),
            creator: read_u32(data, off + 28),
            creator_revision: read_u32(data, off + 32),
        };
        proof {
            assert(h.signature@ =~= data@.subrange(off as int, off + 4));
            assert(h.oem@ =~= data@.subrange(off + 10, off + 16));
            assert(h.oem_table@ =~= data@.subrange(off + 16, off + 24));
        }
        Ok(h)
    }
}

/// The table directory: the common header followed by 8-byte table
/// addresses.
pub struct XSDT {
    pub header: Header,
    pub tables: Vec<u64>,
}

impl XSDT {
    /// How many table addresses the directory declares.
    pub fn size(&self) -> (r: usize)
        requires
            self.header.length >= 36,
        ensures
            r == (self.header.length - 36) as int / 8,
    {
        (self.header.length as usize - 36) / 8
    }

    /// Reads the directory out of its buffer.
    pub fn parse(data: &[u8]) -> (r: Result<XSDT, KernelError>)
        ensures
            r is Err ==> r == Err::<XSDT, KernelError>(KernelError::MalformedImage),
            !(data@.len() >= 36 && 36 <= le_u32(data@, 4) && le_u32(data@, 4) <= data@.len())
                ==> r == Err::<XSDT, KernelError>(KernelError::MalformedImage),
            data@.len() >= 36 && 36 <= le_u32(data@, 4) && le_u32(data@, 4) <= data@.len() ==> r is Ok,
            r matches Ok(x) ==> {
                &&& header_matches(x.header, data@, 0)
                &&& x.header.length >= 36
                &&& 36 + 8 * x.tables@.len() <= data@.len()
                &&& x.tables@.len() == (x.header.length - 36) as int / 8
                &&& forall|k: int|
                    0 <= k < x.tables@.len() ==> #[trigger] x.tables@[k] == le_u64(
                        data@,
                        36 + 8 * k,
                    )
            },
    {
        let n = data.len();
        let header = match Header::parse(data, 0) {
            Ok(h) => h,
            Err(e) => {
                return Err(e);
            },
        };
        if header.length < 36 || header.length as usize > n {
            return Err(KernelError::MalformedImage);
        }
        let count = (header.length as usize - 36) / 8;
        let mut tables: Vec<u64> = Vec::new();
        let mut k: usize = 0;
        while k < count
            invariant
                k <= count,
                36 + 8 * count <= data@.len() <= usize::MAX,
                tables@.len() == k,
                forall|j: int| 0 <= j < k ==> #[trigger] tables@[j] == le_u64(data@, 36 + 8 * j),
            decreases count - k,
        {
            tables.push(read_u64(data, 36 + 8 * k));
            k = k + 1;
        }
        Ok(XSDT { header, tables })
    }

    /// A walk over the declared table addresses.
    pub fn iter(&self) -> (r: XSDTIterator)
        ensures
            r.remaining() == self.tables@,
            r.inv(),
    {
        XSDTIterator::new(&self.tables)
    }
}

/// A finite walk over the directory's table addresses.
pub struct XSDTIterator {
    tables: Vec<u64>,
    index: usize,
}

impl XSDTIterator {
    /// The addresses not yet handed out.
    pub closed spec fn remaining(self) -> Seq<u64> {
        self.tables@.skip(self.index as int)
    }

    /// The cursor never runs past the directory.
    pub closed spec fn inv(self) -> bool {
        self.index <= self.tables@.len()
    }

    /// Starts at the front of the directory.
    pub fn new(tables: &Vec<u64>) -> (r: XSDTIterator)
        ensures
            r.remaining() == tables@,
            r.inv(),
    {
        let mut copy: Vec<u64> = Vec::new();
        let mut i: usize = 0;
        while i < tables.len()
            invariant
                i <= tables@.len(),
                copy@ == tables@.take(i as int),
            decreases tables@.len() - i,
        {
            copy.push(tables[i]);
            proof {
                assert(copy@ =~= tables@.take(i as int + 1));
            }
            i = i + 1;
        }
        proof {
            assert(tables@.take(tables@.len() as int) =~= tables@);
        }
        let r = XSDTIterator { tables: copy, index: 0 };
        proof {
            assert(r.remaining() =~= r.tables@);
        }
        r
    }

    /// Hands out the next address.
    pub fn next(&mut self) -> (r: Option<u64>)
        requires
            old(self).inv(),
        ensures
            final(self).inv(),
            old(self).remaining().len() > 0 ==> {
                &&& r == Some(old(self).remaining()[0])
                &&& final(self).remaining() == old(self).remaining().skip(1)
            },
            old(self).remaining().len() == 0 ==> r is None && final(self).remaining() == old(
                self,
            ).remaining(),
    {
        let ghost oldrem = self.remaining();
        if self.index < self.tables.len() {
            proof {
                assert(oldrem.len() == self.tables@.len() - self.index);
                assert(oldrem[0] == self.tables@[self.index as int]);
            }
            let v = self.tables[self.index];
            self.index = self.index + 1;
            proof {
                assert(self.remaining() =~= oldrem.skip(1));
            }
            Some(v)
        } else {
            proof {
                assert(oldrem.len() == 0) by {
                    assert(self.index >= self.tables@.len());
                    assert(oldrem =~= Seq::<u64>::empty());
                }
            }
            None
        }
    }
}

/// One record of the PCI configuration-space table: a configuration
/// window's base address and the bus range it decodes.
#[derive(Clone, Copy, Debug, PartialEq, Eq, Structural)]
pub struct Entry {
    pub address: u64,
    pub segment: u16,
    pub bus_start: u8,
    pub bus_end: u8,
}

/// `e` holds what the 16-byte record at `off` in `b` declares.
pub open spec fn mcfg_entry_matches(e: Entry, b: Seq<u8>, off: int) -> bool {
    &&& e.address == le_u64(b, off)
    &&& e.segment == le_u16(b, off + 8)
    &&& e.bus_start == b[off + 10]
    &&& e.bus_end == b[off + 11]
}

/// The PCI configuration-space table: the common header, eight reserved
/// bytes, then its records.
pub struct MCFG {
    pub header: Header,
    pub entries: Vec<Entry>,
}

impl MCFG {
    /// How many records the table declares beyond the common header.
    pub fn len(&self) -> (r: usize)
        requires
            self.header.length >= 36,
        ensures
            r == (self.header.length - 36) as int / 16,
    {
        (self.header.length as usize - 36) / 16
    }

    /// Reads the table out of its buffer; records start past the
    /// reserved doubleword at offset 44.
    pub fn parse(data: &[u8]) -> (r: Result<MCFG, KernelError>)
        ensures
            r is Err ==> r == Err::<MCFG, KernelError>(KernelError::MalformedImage),
            !(data@.len() >= 36 && 44 <= le_u32(data@, 4) && le_u32(data@, 4) <= data@.len() && (
            le_u32(data@, 4) - 36) / 16 <= (data@.len() - 44) / 16) ==> r == Err::<
                MCFG,
                KernelError,
            >(KernelError::MalformedImage),
            data@.len() >= 36 && 44 <= le_u32(data@, 4) && le_u32(data@, 4) <= data@.len() && (
            le_u32(data@, 4) - 36) / 16 <= (data@.len() - 44) / 16 ==> r is Ok,
            r matches Ok(x) ==> {
                &&& header_matches(x.header, data@, 0)
                &&& x.header.length >= 44
                &&& x.entries@.len() == (x.header.length - 36) as int / 16
                &&& forall|k: int|
                    0 <= k < x.entries@.len() ==> mcfg_entry_matches(
                        #[trigger] x.entries@[k],
                        data@,
                        44 + 16 * k,
                    )
            },
    {
        let n = data.len();
        let header = match Header::parse(data, 0) {
            Ok(h) => h,
            Err(e) => {
                return Err(e);
            },
        };
        if header.length < 44 || header.length as usize > n {
            return Err(KernelError::MalformedImage);
        }
        let count = (header.length as usize - 36) / 16;
        if count > (n - 44) / 16 {
            return Err(KernelError::MalformedImage);
        }
        let mut entries: Vec<Entry> = Vec::new();
        let mut k: usize = 0;
        while k < count
            invariant
                k <= count,
                44 + 16 * count <= data@.len() <= usize::MAX,
                entries@.len() == k,
                forall|j: int|
                    0 <= j < k ==> mcfg_entry_matches(#[trigger] entries@[j], data@, 44 + 16 * j),
            decreases count - k,
        {
            let off = 44 + 16 * k;
            entries.push(
                Entry {
                    address: read_u64(data, off),
                    segment: read_u16(data, off + 8),
                    bus_start: data[off + 10],
                    bus_end: data[off + 11],
                },
            );
            k = k + 1;
        }
        Ok(MCFG { header, entries })
    }

    /// A walk over the table's records.
    pub fn iter(&self) -> (r: MCFGIterator)
        ensures
            r.remaining() == self.entries@,
            r.inv(),
    {
        MCFGIterator::new(&self.entries)
    }
}

/// A finite walk over the configuration-space records.
pub struct MCFGIterator {
    entries: Vec<Entry>,
    index: usize,
}

impl MCFGIterator {
    /// The records not yet handed out.
    pub closed spec fn remaining(self) -> Seq<Entry> {
        self.entries@.skip(self.index as int)
    }

    /// The cursor never runs past the table.
    pub closed spec fn inv(self) -> bool {
        self.index <= self.entries@.len()
    }

    /// Starts at the front of the table.
    pub fn new(entries: &Vec<Entry>) -> (r: MCFGIterator)
        ensures
            r.remaining() == entries@,
            r.inv(),
    {
        let mut copy: Vec<Entry> = Vec::new();
        let mut i: usize = 0;
        while i < entries.len()
            invariant
                i <= entries@.len(),
                copy@ == entries@.take(i as int),
            decreases entries@.len() - i,
        {
            copy.push(entries[i]);
            proof {
                assert(copy@ =~= entries@.take(i as int + 1));
            }
            i = i + 1;
        }
        proof {
            assert(entries@.take(entries@.len() as int) =~= entries@);
        }
        let r = MCFGIterator { entries: copy, index: 0 };
        proof {
            assert(r.remaining() =~= r.entries@);
        }
        r
    }

    /// Hands out the next record.
    pub fn next(&mut self) -> (r: Option<Entry>)
        requires
            old(self).inv(),
        ensures
            final(self).inv(),
            old(self).remaining().len() > 0 ==> {
                &&& r == Some(old(self).remaining()[0])
                &&& final(self).remaining() == old(self).remaining().skip(1)
            },
            old(self).remaining().len() == 0 ==> r is None && final(self).remaining() == old(
                self,
            ).remaining(),
    {
        let ghost oldrem = self.remaining();
        if self.index < self.entries.len() {
            proof {
                assert(oldrem[0] == self.entries@[self.index as int]);
            }
            let v = self.entries[self.index];
            self.index = self.index + 1;
            proof {
                assert(self.remaining() =~= oldrem.skip(1));
            }
            Some(v)
        } else {
            proof {
                assert(oldrem =~= Seq::<Entry>::empty());
            }
            None
        }
    }
}

/// One record of the interrupt-controller table. The record's first two
/// bytes are its type tag and total length; the decoded fields follow
/// the tag's layout. A tag the table does not know is carried raw.
#[derive(Clone, Copy, Debug, PartialEq, Eq, Structural)]
pub enum MadtEntry {
    LocalApic { length: u8, processor_id: u8, apic_id: u8, flags: u32 },
    IoApic { length: u8, io_apic_id: u8, io_apic_address: u32, gsi_base: u32 },
    IoApicOverride { length: u8, bus: u8, irq: u8, gsi: u32, flags: u16 },
    IoApicNMI { length: u8, source: u8, flags: u16, gsi: u32 },
    LocalApicOverride { length: u8, address: u64 },
    LocalX2Apic { length: u8, x2_id: u32, flags: u32, acpi_id: u32 },
    Unknown { entry_type: u8, length: u8 },
}

/// What the record at `off` in `b` decodes to.
pub open spec fn spec_madt_entry(b: Seq<u8>, off: int) -> MadtEntry {
    let t = b[off];
    let l = b[off + 1];
    if t == 0 {
        MadtEntry::LocalApic {
            length: l,
            processor_id: b[off + 2],
            apic_id: b[off + 3],
            flags: le_u32(b, off + 4) as u32,
        }
    } else if t == 1 {
        MadtEntry::IoApic {
            length: l,
            io_apic_id: b[off + 2],
            io_apic_address: le_u32(b, off + 4) as u32,
            gsi_base: le_u32(b, off + 8) as u32,
        }
    } else if t == 2 {
        MadtEntry::IoApicOverride {
            length: l,
            bus: b[off + 2],
            irq: b[off + 3],
            gsi: le_u32(b, off + 4) as u32,
            flags: le_u16(b, off + 8) as u16,
        }
    } else if t == 3 {
        MadtEntry::IoApicNMI {
            length: l,
            source: b[off + 2],
            flags: le_u16(b, off + 4) as u16,
            gsi: le_u32(b, off + 6) as u32,
        }
    } else if t == 4 {
        MadtEntry::LocalApicOverride { length: l, address: le_u64(b, off + 4) as u64 }
    } else if t == 9 {
        MadtEntry::LocalX2Apic {
            length: l,
            x2_id: le_u32(b, off + 4) as u32,
            flags: le_u32(b, off + 8) as u32,
            acpi_id: le_u32(b, off + 12) as u32,
        }
    } else {
        MadtEntry::Unknown { entry_type: t, length: l }
    }
}

/// The interrupt-controller table: the common header, the controller's
/// register address and flags, then its variable-size records.
pub struct MADT {
    pub header: Header,
    pub apic_address: u32,
    pub flags: u32,
    pub entries: Vec<MadtEntry>,
}

impl MADT {
    /// Decodes the whole table, walking its records by their declared
    /// lengths from offset 44 to the table's declared end. A record
    /// length that is zero or runs past the table is malformed.
    pub fn parse(data: &[u8]) -> (r: Result<MADT, KernelError>)
        ensures
            r is Err ==> r == Err::<MADT, KernelError>(KernelError::MalformedImage),
            !(data@.len() >= 36 && 44 <= le_u32(data@, 4) && le_u32(data@, 4) <= data@.len())
                ==> r == Err::<MADT, KernelError>(KernelError::MalformedImage),
            r matches Ok(x) ==> {
                &&& header_matches(x.header, data@, 0)
                &&& x.apic_address == le_u32(data@, 36)
                &&& x.flags == le_u32(data@, 40)
            },
    {
        let n = data.len();
        let header = match Header::parse(data, 0) {
            Ok(h) => h,
            Err(e) => {
                return Err(e);
            },
        };
        if header.length < 44 || header.length as usize > n {
            return Err(KernelError::MalformedImage);
        }
        let apic_address = read_u32(data, 36);
        let flags = read_u32(data, 40);
        let end = header.length as usize;
        let mut entries: Vec<MadtEntry> = Vec::new();
        let mut off: usize = 44;
        while off < end
            invariant
                44 <= off,
                end <= data@.len() <= usize::MAX,
                end <= 0xFFFF_FFFF,
            decreases end - off,
        {
            if end - off < 2 {
                return Err(KernelError::MalformedImage);
            }
            let t = data[off];
            let l = data[off + 1];
            // Each known record type must cover the fields its layout
            // declares; every record must fit inside the table.
            let needed: usize = match t {
                0 => 8,
                1 => 12,
                2 => 10,
                3 => 10,
                4 => 12,
                9 => 16,
                _ => 2,
            };
            if l == 0 || (l as usize) < needed || l as usize > end - off {
                return Err(KernelError::MalformedImage);
            }
            let e = match t {
                0 => MadtEntry::LocalApic {
                    length: l,
                    processor_id: data[off + 2],
                    apic_id: data[off + 3],
                    flags: read_u32(data, off + 4),
                },
                1 => MadtEntry::IoApic {
                    length: l,
                    io_apic_id: data[off + 2],
                    io_apic_address: read_u32(data, off + 4),
                    gsi_base: read_u32(data, off + 8),
                },
                2 => MadtEntry::IoApicOverride {
                    length: l,
                    bus: data[off + 2],
                    irq: data[off + 3],
                    gsi: read_u32(data, off + 4),
                    flags: read_u16(data, off + 8),
                },
                3 => MadtEntry::IoApicNMI {
                    length: l,
                    source: data[off + 2],
                    flags: read_u16(data, off + 4),
                    gsi: read_u32(data, off + 6),
                },
                4 => MadtEntry::LocalApicOverride { length: l, address: read_u64(data, off + 4) },
                9 => MadtEntry::LocalX2Apic {
                    length: l,
                    x2_id: read_u32(data, off + 4),
                    flags: read_u32(data, off + 8),
                    acpi_id: read_u32(data, off + 12),
                },
                _ => MadtEntry::Unknown { entry_type: t, length: l },
            };
            proof {
                assert(e == spec_madt_entry(data@, off as int));
            }
            entries.push(e);
            off = off + l as usize;
        }
        Ok(MADT { header, apic_address, flags, entries })
    }

    /// A walk over the decoded records.
    pub fn iter(&self) -> (r: EntryIterator)
        ensures
            r.remaining() == self.entries@,
            r.inv(),
    {
        EntryIterator::new(&self.entries)
    }

    /// The first I/O APIC record's register address, if the table holds
    /// one.
    pub fn io_apic_address(&self) -> (r: Option<u32>)
        ensures
            r is Some <==> exists|i: int|
                0 <= i < self.entries@.len() && (#[trigger] self.entries@[i]) is IoApic,
    {
        let mut i: usize = 0;
        while i < self.entries.len()
            invariant
                i <= self.entries@.len(),
                forall|k: int| 0 <= k < i ==> !((#[trigger] self.entries@[k]) is IoApic),
            decreases self.entries@.len() - i,
        {
            if let MadtEntry::IoApic { io_apic_address, .. } = self.entries[i] {
                proof {
                    assert(self.entries@[i as int] is IoApic);
                }
                return Some(io_apic_address);
            }
            i = i + 1;
        }
        None
    }
}

/// A finite walk over the interrupt-controller records.
pub struct EntryIterator {
    entries: Vec<MadtEntry>,
    index: usize,
}

impl EntryIterator {
    /// The records not yet handed out.
    pub closed spec fn remaining(self) -> Seq<MadtEntry> {
        self.entries@.skip(self.index as int)
    }

    /// The cursor never runs past the table.
    pub closed spec fn inv(self) -> bool {
        self.index <= self.entries@.len()
    }

    /// Starts at the front of the record list.
    pub fn new(entries: &Vec<MadtEntry>) -> (r: EntryIterator)
        ensures
            r.remaining() == entries@,
            r.inv(),
    {
        let mut copy: Vec<MadtEntry> = Vec::new();
        let mut i: usize = 0;
        while i < entries.len()
            invariant
                i <= entries@.len(),
                copy@ == entries@.take(i as int),
            decreases entries@.len() - i,
        {
            copy.push(entries[i]);
            proof {
                assert(copy@ =~= entries@.take(i as int + 1));
            }
            i = i + 1;
        }
        proof {
            assert(entries@.take(entries@.len() as int) =~= entries@);
        }
        let r = EntryIterator { entries: copy, index: 0 };
        proof {
            assert(r.remaining() =~= r.entries@);
        }
        r
    }

    /// Hands out the next record.
    pub fn next(&mut self) -> (r: Option<MadtEntry>)
        requires
            old(self).inv(),
        ensures
            final(self).inv(),
            old(self).remaining().len() > 0 ==> {
                &&& r == Some(old(self).remaining()[0])
                &&& final(self).remaining() == old(self).remaining().skip(1)
            },
            old(self).remaining().len() == 0 ==> r is None && final(self).remaining() == old(
                self,
            ).remaining(),
    {
        let ghost oldrem = self.remaining();
        if self.index < self.entries.len() {
            proof {
                assert(oldrem[0] == self.entries@[self.index as int]);
            }
            let v = self.entries[self.index];
            self.index = self.index + 1;
            proof {
                assert(self.remaining() =~= oldrem.skip(1));
            }
            Some(v)
        } else {
            proof {
                assert(oldrem =~= Seq::<MadtEntry>::empty());
            }
            None
        }
    }
}

/// The root system-description pointer the firmware leaves in memory:
/// it names the directory's physical address.
#[derive(Clone, Debug)]
pub struct RSDP {
    pub signature: Vec<u8>,
    pub checksum: u8,
    pub oem: Vec<u8>,
    pub revision: u8,
    pub rsdt_address: u32,
    pub length: u32,
    pub xsdt: u64,
    pub ext_checksum: u8,
}

impl RSDP {
    /// Reads the fixed 36-byte pointer record.
    pub fn parse(data: &[u8]) -> (r: Result<RSDP, KernelError>)
        ensures
            data@.len() >= 36 ==> (r matches Ok(p) && {
                &&& p.signature@ == data@.subrange(0, 8)
                &&& p.checksum == data@[8]
                &&& p.oem@ == data@.subrange(9, 15)
                &&& p.revision == data@[15]
                &&& p.rsdt_address == le_u32(data@, 16)
                &&& p.length == le_u32(data@, 20)
                &&& p.xsdt == le_u64(data@, 24)
                &&& p.ext_checksum == data@[32]
            }),
            data@.len() < 36 ==> r == Err::<RSDP, KernelError>(KernelError::MalformedImage),
    {
        let n = data.len();
        if n < 36 {
            return Err(KernelError::MalformedImage);
        }
        let mut signature: Vec<u8> = Vec::new();
        let mut i: usize = 0;
        while i < 8
            invariant
                36 <= data@.len() <= usize::MAX,
                i <= 8,
                signature@.len() == i,
                forall|k: int| 0 <= k < i ==> signature@[k] == data@[k],
            decreases 8 - i,
        {
            signature.push(data[i]);
            i = i + 1;
        }
        let mut oem: Vec<u8> = Vec::new();
        let mut i: usize = 0;
        while i < 6
            invariant
                36 <= data@.len() <= usize::MAX,
                i <= 6,
                oem@.len() == i,
                forall|k: int| 0 <= k < i ==> oem@[k] == data@[9 + k],
            decreases 6 - i,
        {
            oem.push(data[9 + i]);
            i = i + 1;
        }
        let r = RSDP {
            signature,
            checksum: data[8],
            oem,
            revision: data[15],
            rsdt_address: read_u32(data, 16),
            length: read_u32(data, 20),
            xsdt: read_u64(data, 24),
            ext_checksum: data[32],
        };
        proof {
            assert(r.signature@ =~= data@.subrange(0, 8));
            assert(r.oem@ =~= data@.subrange(9, 15));
        }
        Ok(r)
    }
}

} // verus!
