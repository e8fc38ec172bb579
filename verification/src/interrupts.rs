//! Interrupt plumbing the core shares with its handlers: the fixed
//! register-snapshot record, the handler registry, and the I/O APIC
//! redirection-entry encoding. Writing the encoded entries to the
//! hardware's register window is left to the unverified edge; here the
//! registers are plain values.

use vstd::prelude::*;

verus! {

/// Timer vector the scheduler hook is registered on.
pub const SCHEDULER_VECTOR: u8 = 0x3C;

/// Identifier of the scheduler hook in the handler registry.
pub const SCHEDULER_HANDLER: u64 = 1;

/// Fixed-order record of the general-purpose registers saved at every
/// privilege-boundary crossing. The field order is the stack layout the
/// save stub produces: it pushes the registers from `rax` down to
/// `rbp`, so `rbp` sits lowest.
#[derive(Clone, Copy, Debug, PartialEq, Eq, Structural)]
pub struct CpuSnapshot {
    pub rbp: u64,
    pub r15: u64,
    pub r14: u64,
    pub r13: u64,
    pub r12: u64,
    pub r11: u64,
    pub r10: u64,
    pub r9: u64,
    pub r8: u64,
    pub rdi: u64,
    pub rsi: u64,
    pub rax: u64,
    pub rbx: u64,
    pub rcx: u64,
    pub rdx: u64,
}

/// Registered interrupt handlers: one `(vector, handler)` pair per
/// registration, in registration order.
pub struct HandlerTable {
    pub handlers: Vec<(u8, u64)>,
}

impl HandlerTable {
    /// An empty registry.
    pub fn new() -> (r: HandlerTable)
        ensures
            r.handlers@.len() == 0,
    {
        HandlerTable { handlers: Vec::new() }
    }
}

/// Registers a handler for an interrupt vector.
pub fn register_handler(table: &mut HandlerTable, vector: u8, handler: u64)
    ensures
        final(table).handlers@ == old(table).handlers@.push((vector, handler)),
{
    table.handlers.push((vector, handler));
}

/// The legacy interrupt lines, in vector order from the remap base.
#[derive(Clone, Copy, Debug, PartialEq, Eq, Structural)]
pub enum InterruptIndex {
    Timer,
    Keyboard,
    Cascade,
    SerialPort1,
    SerialPort2,
    ParallelPort1,
    FloppyDisk,
    ParallelPort2,
}

/// Vector base the legacy lines are remapped to.
pub const PIC_1_OFFSET: u8 = 32;

impl InterruptIndex {
    pub open spec fn spec_as_u8(self) -> u8 {
        match self {
            InterruptIndex::Timer => 32,
            InterruptIndex::Keyboard => 33,
            InterruptIndex::Cascade => 34,
            InterruptIndex::SerialPort1 => 35,
            InterruptIndex::SerialPort2 => 36,
            InterruptIndex::ParallelPort1 => 37,
            InterruptIndex::FloppyDisk => 38,
            InterruptIndex::ParallelPort2 => 39,
        }
    }

    /// The line's interrupt vector.
    pub fn as_u8(self) -> (r: u8)
        ensures
            r == self.spec_as_u8(),
    {
        match self {
            InterruptIndex::Timer => 32,
            InterruptIndex::Keyboard => 33,
            InterruptIndex::Cascade => 34,
            InterruptIndex::SerialPort1 => 35,
            InterruptIndex::SerialPort2 => 36,
            InterruptIndex::ParallelPort1 => 37,
            InterruptIndex::FloppyDisk => 38,
            InterruptIndex::ParallelPort2 => 39,
        }
    }

    /// The vector as an index.
    pub fn as_usize(self) -> (r: usize)
        ensures
            r == self.spec_as_u8(),
    {
        self.as_u8() as usize
    }
}

/// One I/O APIC redirection entry, built up bit field by bit field in
/// its low and high register words.
#[derive(Clone, Copy, Debug, PartialEq, Eq, Structural)]
pub struct RedirectionEntry {
    low: u32,
    high: u32,
}

/// `word` with bits `lo ..= hi` replaced by the low bits of `value`.
pub open spec fn spec_set_bits(word: u32, lo: u32, hi: u32, value: u32) -> u32 {
    ((word & !(((0xffff_ffffu32 >> (31 - (hi - lo)) as u32) as u32) << lo)) | ((value & ((
    0xffff_ffffu32 >> (31 - (hi - lo)) as u32) as u32)) << lo)) as u32
}

/// `word` with bit `i` set to `b`.
pub open spec fn spec_set_bit(word: u32, i: u32, b: bool) -> u32 {
    if b {
        word | (1u32 << i)
    } else {
        word & !(1u32 << i)
    }
}

/// Replaces bits `lo ..= hi` of `word` by the low bits of `value`.
fn set_bits(word: u32, lo: u32, hi: u32, value: u32) -> (r: u32)
    requires
        lo <= hi < 32,
    ensures
        r == spec_set_bits(word, lo, hi, value),
{
    let mask = 0xffff_ffffu32 >> (31 - (hi - lo));
    (word & !(mask << lo)) | ((value & mask) << lo)
}

/// Sets or clears bit `i` of `word`.
fn set_bit(word: u32, i: u32, b: bool) -> (r: u32)
    requires
        i < 32,
    ensures
        r == spec_set_bit(word, i, b),
{
    if b {
        word | (1u32 << i)
    } else {
        word & !(1u32 << i)
    }
}

impl RedirectionEntry {
    /// A cleared entry: both register words zero.
    pub fn new() -> (r: RedirectionEntry)
        ensures
            r.spec_low() == 0,
            r.spec_high() == 0,
    {
        RedirectionEntry { low: 0, high: 0 }
    }

    /// The low register word as it stands.
    pub closed spec fn spec_low(self) -> u32 {
        self.low
    }

    /// The high register word as it stands.
    pub closed spec fn spec_high(self) -> u32 {
        self.high
    }

    /// Interrupt vector: bits 0 through 7 of the low word.
    pub fn set_vector(&mut self, vector: u8)
        ensures
            final(self).spec_low() == spec_set_bits(old(self).spec_low(), 0, 7, vector as u32),
            final(self).spec_high() == old(self).spec_high(),
    {
        self.low = set_bits(self.low, 0, 7, vector as u32);
    }

    /// Delivery mode: bits 8 through 10 of the low word.
    pub fn set_delivery_mode(&mut self, mode: u8)
        ensures
            final(self).spec_low() == spec_set_bits(old(self).spec_low(), 8, 10, mode as u32),
            final(self).spec_high() == old(self).spec_high(),
    {
        self.low = set_bits(self.low, 8, 10, mode as u32);
    }

    /// Destination mode: bit 11 of the low word.
    pub fn set_destination_mode(&mut self, mode: u8)
        ensures
            final(self).spec_low() == spec_set_bit(old(self).spec_low(), 11, mode == 1),
            final(self).spec_high() == old(self).spec_high(),
    {
        self.low = set_bit(self.low, 11, mode == 1);
    }

    /// Delivery status: bit 12 of the low word.
    pub fn set_delivery_status(&mut self, status: u8)
        ensures
            final(self).spec_low() == spec_set_bit(old(self).spec_low(), 12, status == 1),
            final(self).spec_high() == old(self).spec_high(),
    {
        self.low = set_bit(self.low, 12, status == 1);
    }

    /// Pin polarity: bit 13 of the low word.
    pub fn set_polarity(&mut self, polarity: u8)
        ensures
            final(self).spec_low() == spec_set_bit(old(self).spec_low(), 13, polarity == 1),
            final(self).spec_high() == old(self).spec_high(),
    {
        self.low = set_bit(self.low, 13, polarity == 1);
    }

    /// Remote IRR: bit 14 of the low word.
    #[allow(nonstandard_style)]
    pub fn set_IRR(&mut self, irr: u8)
        ensures
            final(self).spec_low() == spec_set_bit(old(self).spec_low(), 14, irr == 1),
            final(self).spec_high() == old(self).spec_high(),
    {
        self.low = set_bit(self.low, 14, irr == 1);
    }

    /// Trigger mode: bit 15 of the low word.
    pub fn set_trigger_mode(&mut self, mode: u8)
        ensures
            final(self).spec_low() == spec_set_bit(old(self).spec_low(), 15, mode == 1),
            final(self).spec_high() == old(self).spec_high(),
    {
        self.low = set_bit(self.low, 15, mode == 1);
    }

    /// Mask: bit 16 of the low word.
    pub fn set_mask(&mut self, mask: u8)
        ensures
            final(self).spec_low() == spec_set_bit(old(self).spec_low(), 16, mask == 1),
            final(self).spec_high() == old(self).spec_high(),
    {
        self.low = set_bit(self.low, 16, mask == 1);
    }

    /// Destination: bits 24 through 31 of the high word.
    pub fn set_destination(&mut self, dest: u8)
        ensures
            final(self).spec_high() == spec_set_bits(old(self).spec_high(), 24, 31, dest as u32),
            final(self).spec_low() == old(self).spec_low(),
    {
        self.high = set_bits(self.high, 24, 31, dest as u32);
    }

    /// Sets the mask bit (bit 16).
    pub fn enable(&mut self)
        ensures
            final(self).spec_low() == spec_set_bit(old(self).spec_low(), 16, true),
            final(self).spec_high() == old(self).spec_high(),
    {
        self.set_mask(1);
    }

    /// Clears the mask bit (bit 16).
    pub fn disable(&mut self)
        ensures
            final(self).spec_low() == spec_set_bit(old(self).spec_low(), 16, false),
            final(self).spec_high() == old(self).spec_high(),
    {
        self.set_mask(0);
    }

    /// The low register word to store.
    pub fn get_low(&self) -> (r: u32)
        ensures
            r == self.spec_low(),
    {
        self.low
    }

    /// The high register word to store.
    pub fn get_high(&self) -> (r: u32)
        ensures
            r == self.spec_high(),
    {
        self.high
    }
}

/// Register index of the first redirection-table entry.
pub const IOAPIC_RED_TABLE: u16 = 0x10;

/// The I/O APIC, addressed through a select/window register pair at its
/// base address. A register store is two memory stores: the register
/// index into the select register at the base, then the value into the
/// window register 16 bytes above. The stores themselves are values
/// here; performing them is the unverified edge's work.
pub struct IOApic {
    base: u64,
}

impl IOApic {
    /// The programmed base address of the register window.
    pub closed spec fn spec_base(self) -> u64 {
        self.base
    }

    /// An I/O APIC with no base programmed yet.
    pub fn new() -> (r: IOApic)
        ensures
            r.spec_base() == 0,
    {
        IOApic { base: 0 }
    }

    /// Adopts the I/O APIC base address found in the firmware's
    /// interrupt-controller table, and encodes the bring-up write the
    /// source performs: redirection entry one set to vector 0x45.
    pub fn init(&mut self, io_apic_address: u32) -> (r: Vec<(u64, u32)>)
        requires
            old(self).spec_base() + 0x10 <= u64::MAX,
        ensures
            final(self).spec_base() == io_apic_address,
            ({
                let e = spec_set_bits(0, 0, 7, 0x45);
                r@ =~= seq![
                    (io_apic_address as u64, (IOAPIC_RED_TABLE + 2) as u32),
                    ((io_apic_address + 0x10) as u64, e),
                    (io_apic_address as u64, (IOAPIC_RED_TABLE + 3) as u32),
                    ((io_apic_address + 0x10) as u64, 0u32),
                ]
            }),
    {
        self.base = io_apic_address as u64;
        let mut re = RedirectionEntry::new();
        re.set_vector(0x45);
        self.write_entry(1, &re)
    }

    /// The two register stores that write `value` into register
    /// `offset`: select, then window.
    pub fn write(&self, offset: u16, value: u32) -> (r: Vec<(u64, u32)>)
        requires
            self.spec_base() + 0x10 <= u64::MAX,
        ensures
            r@ =~= seq![
                (self.spec_base(), offset as u32),
                ((self.spec_base() + 0x10) as u64, value),
            ],
    {
        let mut out: Vec<(u64, u32)> = Vec::new();
        out.push((self.base, offset as u32));
        out.push((self.base + 0x10, value));
        out
    }

    /// The four register stores that install a redirection entry for a
    /// vector: its low word, then its high word.
    pub fn write_entry(&self, vector: u8, entry: &RedirectionEntry) -> (r: Vec<(u64, u32)>)
        requires
            self.spec_base() + 0x10 <= u64::MAX,
        ensures
            r@ =~= seq![
                (self.spec_base(), (IOAPIC_RED_TABLE + 2 * vector as u16) as u32),
                ((self.spec_base() + 0x10) as u64, entry.spec_low()),
                (self.spec_base(), (IOAPIC_RED_TABLE + 2 * vector as u16 + 1) as u32),
                ((self.spec_base() + 0x10) as u64, entry.spec_high()),
            ],
    {
        let address = IOAPIC_RED_TABLE + 2 * (vector as u16);
        let mut out = self.write(address, entry.get_low());
        let mut second = self.write(address + 1, entry.get_high());
        out.append(&mut second);
        out
    }
}

} // verus!
