//! PCI configuration-space decoding: base-address registers, the
//! class-code naming table, and the configuration-window address
//! arithmetic. The volatile reads and writes of the configuration
//! window itself are the unverified edge's work; everything here turns
//! plain register values into decisions.

use vstd::prelude::*;

verus! {

/// A base-address register's raw value.
#[derive(Clone, Copy, Debug, PartialEq, Eq, Structural)]
pub struct BAR {
    pub data: u32,
}

impl BAR {
    /// Wraps a raw register value.
    pub fn from(data: u32) -> (r: BAR)
        ensures
            r.data == data,
    {
        BAR { data }
    }

    /// A register that reads zero is unused.
    pub fn used(&self) -> (r: bool)
        ensures
            r == (self.data != 0),
    {
        self.data != 0
    }

    /// Bit 0 set: the register decodes an I/O port range.
    pub fn is_io(&self) -> (r: bool)
        ensures
            r == (self.data & 1 == 1),
    {
        self.data & 1 == 1
    }

    /// Bit 0 clear: the register decodes a memory range.
    pub fn is_mem(&self) -> (r: bool)
        ensures
            r == (self.data & 1 == 0),
    {
        self.data & 1 == 0
    }

    /// Bit 3: the memory range is prefetchable.
    pub fn is_prefetch(&self) -> (r: bool)
        ensures
            r == (self.data & 8 == 8),
    {
        self.data & 8 == 8
    }

    /// The memory base address: the value with its low four bits
    /// masked off.
    pub fn get_address(&self) -> (r: u32)
        ensures
            r == self.data & 0xFFFF_FFF0,
    {
        self.data & 0xFFFFFFF0
    }

    /// The I/O port base: the value with its low two bits masked off.
    pub fn get_io(&self) -> (r: u32)
        ensures
            r == self.data & 0xFFFF_FFFC,
    {
        self.data & 0xFFFFFFFC
    }

    /// Bits 1 and 2 read 0b10: the register is the low half of a
    /// 64-bit memory address.
    pub fn is_64bit(&self) -> (r: bool)
        ensures
            r == ((self.data >> 1) & 3 == 2),
    {
        (self.data >> 1) & 3 == 2
    }
}

/// One decoded resource a device claims through its base-address
/// registers: an I/O port range or a memory range, with the probed
/// length.
#[derive(Clone, Copy, Debug, PartialEq, Eq, Structural)]
pub enum BarResource {
    IOPort { base: u32, length: u32 },
    Memory { base: u32, length: u32 },
    Memory64 { base: u64, length: u64 },
}

/// The probed length of a decoded range: zero stays zero, anything
/// else is the two's complement of the masked probe value.
pub open spec fn spec_probe_len(masked: u32) -> u32 {
    if masked == 0 {
        0u32
    } else {
        ((!masked + 1) as u32)
    }
}

/// The resources a run of probed base-address registers decodes to:
/// unused slots vanish, an I/O or memory register gives one range, and
/// a 64-bit memory register consumes the following slot as its high
/// half.
pub open spec fn spec_bar_resources(regs: Seq<(u32, u32)>) -> Seq<BarResource>
    decreases regs.len(),
{
    if regs.len() == 0 {
        Seq::empty()
    } else {
        let raw = regs[0].0;
        let probed = regs[0].1;
        if raw == 0 {
            spec_bar_resources(regs.skip(1))
        } else if raw & 1 == 1 {
            seq![
                BarResource::IOPort {
                    base: raw & 0xFFFF_FFFC,
                    length: spec_probe_len(probed & 0xFFFF_FFFC),
                },
            ] + spec_bar_resources(regs.skip(1))
        } else if (raw >> 1) & 3 == 2 && regs.len() >= 2 {
            seq![
                BarResource::Memory64 {
                    base: ((raw & 0xFFFF_FFF0) as u64 + ((regs[1].0 as u64) << 32u64)) as u64,
                    length: (spec_probe_len(probed & 0xFFFF_FFF0) as u64 + spec_probe_len(
                        regs[1].1 & 0xFFFF_FFF0,
                    ) as u64) as u64,
                },
            ] + spec_bar_resources(regs.skip(2))
        } else {
            seq![
                BarResource::Memory {
                    base: raw & 0xFFFF_FFF0,
                    length: spec_probe_len(probed & 0xFFFF_FFF0),
                },
            ] + spec_bar_resources(regs.skip(1))
        }
    }
}

/// A device's multi-function bit: bit 7 of its header-type byte.
pub fn is_multifunction(header_type: u8) -> (r: bool)
    ensures
        r == (header_type & 0x80 != 0),
{
    header_type & 0x80 != 0
}

/// The PCI side of the core: the configuration-space records found in
/// the firmware's table, if discovery found any.
pub struct PCI {
    pub mcfg: Option<Vec<crate::acpi::Entry>>,
}

impl PCI {
    /// The byte offset of a function's configuration space inside its
    /// segment's window: bus, device, function and register packed
    /// into the address, as the configuration mechanism lays them out.
    pub fn form_address(address: u64, bus: u8, device: u8, function: u8, offset: u16) -> (r: u64)
        requires
            address + 0x1000_0000 <= u64::MAX,
        ensures
            r == address + (((bus as u64) << 20u64) | ((device as u64) << 15u64) | ((
            function as u64) << 12u64) | ((offset as u64) & 0xFFF)),
    {
        proof {
            assert((((bus as u64) << 20u64) | ((device as u64) << 15u64) | ((function as u64)
                << 12u64) | ((offset as u64) & 0xFFF)) < 0x1000_0000) by (bit_vector);
        }
        address + (((bus as u64) << 20) | ((device as u64) << 15) | ((function as u64) << 12) | ((
        offset as u64) & 0xFFF))
    }

    /// Before discovery: no configuration windows known.
    pub fn new() -> (r: PCI)
        ensures
            r.mcfg is None,
    {
        PCI { mcfg: None }
    }

    /// Decodes the probed base-address registers of one device header:
    /// each pair holds a register's value and the value read back after
    /// writing all ones, from which the range length follows. A 64-bit
    /// memory range consumes the following pair as its high half, as
    /// the probing loop does.
    pub fn get_bars(regs: &Vec<(u32, u32)>) -> (r: Vec<BarResource>)
        ensures
            r@ == spec_bar_resources(regs@),
    {
        let mut out: Vec<BarResource> = Vec::new();
        let mut i: usize = 0;
        proof {
            assert(regs@.skip(0) =~= regs@);
            assert(spec_bar_resources(regs@) =~= out@ + spec_bar_resources(regs@.skip(0)));
        }
        while i < regs.len()
            invariant
                i <= regs@.len(),
                spec_bar_resources(regs@) == out@ + spec_bar_resources(regs@.skip(i as int)),
            decreases regs@.len() - i,
        {
            let ghost pre = out@;
            let ghost suffix = regs@.skip(i as int);
            proof {
                assert(suffix.len() > 0);
                assert(suffix[0] == regs@[i as int]);
                assert(suffix.skip(1) =~= regs@.skip(i as int + 1));
                if suffix.len() >= 2 {
                    assert(suffix[1] == regs@[i as int + 1]);
                    assert(suffix.skip(2) =~= regs@.skip(i as int + 2));
                }
            }
            let (raw, probed) = regs[i];
            let bar = BAR::from(raw);
            if bar.used() {
                if bar.is_io() {
                    let masked = probed & 0xFFFFFFFC;
                    proof {
                        assert(masked != 0 ==> !masked <= 0xFFFF_FFFE) by (bit_vector);
                    }
                    let length = if masked == 0 {
                        0
                    } else {
                        !masked + 1
                    };
                    out.push(BarResource::IOPort { base: bar.get_io(), length });
                    proof {
                        assert(out@ =~= pre + seq![
                            BarResource::IOPort {
                                base: raw & 0xFFFF_FFFC,
                                length: spec_probe_len(probed & 0xFFFF_FFFC),
                            },
                        ]);
                    }
                } else if bar.is_64bit() && i + 1 < regs.len() {
                    let (raw_hi, probed_hi) = regs[i + 1];
                    let masked = probed & 0xFFFFFFF0;
                    let masked_hi = probed_hi & 0xFFFFFFF0;
                    proof {
                        assert(masked != 0 ==> !masked <= 0xFFFF_FFFE) by (bit_vector);
                        assert(masked_hi != 0 ==> !masked_hi <= 0xFFFF_FFFE) by (bit_vector);
                    }
                    let length = if masked == 0 {
                        0u64
                    } else {
                        (!masked + 1) as u64
                    };
                    let length_hi = if masked_hi == 0 {
                        0u64
                    } else {
                        (!masked_hi + 1) as u64
                    };
                    let hi_shifted = (raw_hi as u64) << 32;
                    proof {
                        assert((raw_hi as u64) << 32u64 <= 0xFFFF_FFFF_0000_0000) by (bit_vector);
                    }
                    let base = (bar.get_address() as u64) + hi_shifted;
                    out.push(BarResource::Memory64 { base, length: length + length_hi });
                    proof {
                        assert(out@ =~= pre + seq![
                            BarResource::Memory64 {
                                base: ((raw & 0xFFFF_FFF0) as u64 + ((raw_hi as u64)
                                    << 32u64)) as u64,
                                length: (spec_probe_len(probed & 0xFFFF_FFF0) as u64
                                    + spec_probe_len(probed_hi & 0xFFFF_FFF0) as u64) as u64,
                            },
                        ]);
                    }
                    i = i + 1;
                } else {
                    let masked = probed & 0xFFFFFFF0;
                    proof {
                        assert(masked != 0 ==> !masked <= 0xFFFF_FFFE) by (bit_vector);
                    }
                    let length = if masked == 0 {
                        0
                    } else {
                        !masked + 1
                    };
                    out.push(BarResource::Memory { base: bar.get_address(), length });
                    proof {
                        assert(out@ =~= pre + seq![
                            BarResource::Memory {
                                base: raw & 0xFFFF_FFF0,
                                length: spec_probe_len(probed & 0xFFFF_FFF0),
                            },
                        ]);
                    }
                }
            }
            if i < regs.len() {
                i = i + 1;
            }
        }
        proof {
            assert(regs@.skip(regs@.len() as int) =~= Seq::<(u32, u32)>::empty());
            assert(out@ =~= out@ + spec_bar_resources(regs@.skip(regs@.len() as int)));
        }
        out
    }
}

/// A device discovery hands the kernel: where it sits on the bus.
#[derive(Clone, Copy, Debug, PartialEq, Eq, Structural)]
pub enum DeviceType {
    PciDevice { segment: u16, bus: u8, device: u8, function: u8 },
    Generic { hid: u64 },
}

/// A discovered device and the resources it claims.
#[derive(Clone, Debug)]
pub struct Device {
    pub device_type: DeviceType,
    pub resource: Vec<BarResource>,
}

/// Finds the device registered at a bus position, by linear search in
/// registration order.
pub fn search_pci_device(
    devices: &Vec<Device>,
    segment: u16,
    bus: u8,
    device: u8,
    function: u8,
) -> (r: Option<usize>)
    ensures
        r matches Some(i) ==> i < devices@.len() && devices@[i as int].device_type == (
        DeviceType::PciDevice { segment, bus, device, function }),
        r is None ==> forall|i: int|
            0 <= i < devices@.len() ==> (#[trigger] devices@[i]).device_type != (
            DeviceType::PciDevice { segment, bus, device, function }),
{
    let mut i: usize = 0;
    while i < devices.len()
        invariant
            i <= devices@.len(),
            forall|k: int|
                0 <= k < i ==> (#[trigger] devices@[k]).device_type != (DeviceType::PciDevice {
                    segment,
                    bus,
                    device,
                    function,
                }),
        decreases devices@.len() - i,
    {
        if let DeviceType::PciDevice { segment: s, bus: b, device: d, function: f } = devices[
            i
        ].device_type {
            if s == segment && b == bus && d == device && f == function {
                return Some(i);
            }
        }
        i = i + 1;
    }
    None
}

/// The name of a device class and subclass pair, as the class table
/// spells it.
pub open spec fn spec_class_str(class: u8, subclass: u8) -> Seq<char> {
    if class == 0x00 {
        if subclass == 0x00 { "Non-VGA-Compatible Unclassified Device"@ } else if subclass == 0x01 { "VGA-Compatible Unclassified Device"@ } else { "Unclassified"@ }
    } else
    if class == 0x01 {
        if subclass == 0x00 { "SCSI Bus Controller"@ } else if subclass == 0x01 { "IDE Controller"@ } else if subclass == 0x02 { "Floppy Disk Controller"@ } else if subclass == 0x03 { "IPI Bus Controller"@ } else if subclass == 0x04 { "RAID Controller"@ } else if subclass == 0x05 { "ATA Controller"@ } else if subclass == 0x06 { "Serial ATA Controller"@ } else if subclass == 0x07 { "Serial Attached SCSI Controller"@ } else if subclass == 0x08 { "Non-Volatile Memory Controller"@ } else if subclass == 0x80 { "Other"@ } else { "Mass Storage Controller"@ }
    } else
    if class == 0x02 {
        if subclass == 0x00 { "Ethernet Controller"@ } else if subclass == 0x01 { "Token Ring Controller"@ } else if subclass == 0x02 { "FDDI Controller"@ } else if subclass == 0x03 { "ATM Controller"@ } else if subclass == 0x04 { "ISDN Controller"@ } else if subclass == 0x05 { "WorldFip Controller"@ } else if subclass == 0x06 { "PICMG 2.14 Multi Computing Controller"@ } else if subclass == 0x07 { "Infiniband Controller"@ } else if subclass == 0x08 { "Fabric Controller"@ } else if subclass == 0x80 { "Other"@ } else { "Network Controller"@ }
    } else
    if class == 0x03 {
        if subclass == 0x00 { "VGA Compatible Controller"@ } else if subclass == 0x01 { "XGA Controller"@ } else if subclass == 0x02 { "3D Controller (Not VGA-Compatible)"@ } else if subclass == 0x80 { "Other"@ } else { "Network Controller"@ }
    } else
    if class == 0x04 {
        if subclass == 0x00 { "Multimedia Video Controller"@ } else if subclass == 0x01 { "Multimedia Audio Controller"@ } else if subclass == 0x02 { "Computer Telephony Device"@ } else if subclass == 0x03 { "Audio Device"@ } else if subclass == 0x80 { "Other"@ } else { "Network Controller"@ }
    } else
    if class == 0x05 {
        if subclass == 0x00 { "RAM Controller"@ } else if subclass == 0x01 { "Flash Controller"@ } else if subclass == 0x80 { "Other"@ } else { "Network Controller"@ }
    } else
    if class == 0x06 {
        if subclass == 0x00 { "Host Bridge"@ } else if subclass == 0x01 { "ISA Bridge"@ } else if subclass == 0x02 { "EISA Bridge"@ } else if subclass == 0x03 { "MCA Bridge"@ } else if subclass == 0x04 { "PCI-to-PCI Bridge"@ } else if subclass == 0x05 { "PCMCIA Bridge"@ } else if subclass == 0x06 { "NuBus Bridge"@ } else if subclass == 0x07 { "CardBus Bridge"@ } else if subclass == 0x08 { "RACEway Bridge"@ } else if subclass == 0x09 { "PCI-to-PCI Bridge"@ } else if subclass == 0x0A { "InfiniBand-to-PCI Host Bridge"@ } else if subclass == 0x80 { "Other"@ } else { "Network Controller"@ }
    } else
    if class == 0x07 {
        if subclass == 0x00 { "Serial Controller"@ } else if subclass == 0x01 { "Parallel Controller"@ } else if subclass == 0x02 { "Multiport Serial Controller"@ } else if subclass == 0x03 { "Modem"@ } else if subclass == 0x04 { "IEEE 488.1/2 (GPIB) Controller"@ } else if subclass == 0x05 { "Smart Card Controller"@ } else if subclass == 0x80 { "Other"@ } else { "Network Controller"@ }
    } else
    if class == 0x08 {
        if subclass == 0x00 { "PIC"@ } else if subclass == 0x01 { "DMA Controller"@ } else if subclass == 0x02 { "Timer"@ } else if subclass == 0x03 { "RTC Controller"@ } else if subclass == 0x04 { "PCI Hot-Plug Controller"@ } else if subclass == 0x05 { "SD Host controller"@ } else if subclass == 0x06 { "IOMMU"@ } else if subclass == 0x80 { "Other"@ } else { "Network Controller"@ }
    } else
    if class == 0x09 {
        if subclass == 0x00 { "Keyboard Controller"@ } else if subclass == 0x01 { "Digitizer Pen"@ } else if subclass == 0x02 { "Mouse Controller"@ } else if subclass == 0x03 { "Scanner Controller"@ } else if subclass == 0x04 { "Gameport Controller"@ } else if subclass == 0x80 { "Other"@ } else { "Network Controller"@ }
    } else
    if class == 0x0A {
        if subclass == 0x00 { "Generic"@ } else if subclass == 0x80 { "Other"@ } else { "Docking Station"@ }
    } else
    if class == 0x0B {
        if subclass == 0x00 { "386"@ } else if subclass == 0x01 { "486"@ } else if subclass == 0x02 { "Pentium"@ } else if subclass == 0x03 { "Pentium Pro"@ } else if subclass == 0x04 { "Alpha"@ } else if subclass == 0x05 { "PowerPC"@ } else if subclass == 0x06 { "MIPS"@ } else if subclass == 0x07 { "Co-Processor"@ } else if subclass == 0x80 { "Other"@ } else { "Docking Station"@ }
    } else
    if class == 0x0C {
        if subclass == 0x00 { "FireWire (IEEE 1394) Controller"@ } else if subclass == 0x01 { "ACCESS Bus Controller"@ } else if subclass == 0x02 { "SSA"@ } else if subclass == 0x03 { "USB Controller"@ } else if subclass == 0x04 { "Fibre Channel"@ } else if subclass == 0x05 { "SMBus Controller"@ } else if subclass == 0x06 { "InfiniBand Controller"@ } else if subclass == 0x07 { "IPMI Interface"@ } else if subclass == 0x08 { "SERCOS Interface (IEC 61491)"@ } else if subclass == 0x09 { "CANbus Controller"@ } else if subclass == 0x80 { "Other"@ } else { "Docking Station"@ }
    } else
    if class == 0x0D {
        if subclass == 0x00 { "iRDA Compatible Controller"@ } else if subclass == 0x01 { "Consumer IR Controller"@ } else if subclass == 0x10 { "RF Controller"@ } else if subclass == 0x11 { "Bluetooth Controller"@ } else if subclass == 0x12 { "Broadband Controller"@ } else if subclass == 0x20 { "Ethernet Controller (802.1a)"@ } else if subclass == 0x21 { "Ethernet Controller (802.1b)"@ } else if subclass == 0x80 { "Other"@ } else { "Docking Station"@ }
    } else {
        "Unknown"@
    }
}

/// Names a PCI device's class and subclass. The programming-interface
/// byte is carried for symmetry with the configuration read but does
/// not influence the name.
pub fn class_str(class: u8, subclass: u8, prog_if: u8) -> (r: &'static str)
    ensures
        r@ == spec_class_str(class, subclass),
{
    let s: &'static str = match class {
        0x00 => match subclass {
            0x00 => "Non-VGA-Compatible Unclassified Device",
            0x01 => "VGA-Compatible Unclassified Device",
            _ => "Unclassified",
        },
        0x01 => match subclass {
            0x00 => "SCSI Bus Controller",
            0x01 => "IDE Controller",
            0x02 => "Floppy Disk Controller",
            0x03 => "IPI Bus Controller",
            0x04 => "RAID Controller",
            0x05 => "ATA Controller",
            0x06 => "Serial ATA Controller",
            0x07 => "Serial Attached SCSI Controller",
            0x08 => "Non-Volatile Memory Controller",
            0x80 => "Other",
            _ => "Mass Storage Controller",
        },
        0x02 => match subclass {
            0x00 => "Ethernet Controller",
            0x01 => "Token Ring Controller",
            0x02 => "FDDI Controller",
            0x03 => "ATM Controller",
            0x04 => "ISDN Controller",
            0x05 => "WorldFip Controller",
            0x06 => "PICMG 2.14 Multi Computing Controller",
            0x07 => "Infiniband Controller",
            0x08 => "Fabric Controller",
            0x80 => "Other",
            _ => "Network Controller",
        },
        0x03 => match subclass {
            0x00 => "VGA Compatible Controller",
            0x01 => "XGA Controller",
            0x02 => "3D Controller (Not VGA-Compatible)",
            0x80 => "Other",
            _ => "Network Controller",
        },
        0x04 => match subclass {
            0x00 => "Multimedia Video Controller",
            0x01 => "Multimedia Audio Controller",
            0x02 => "Computer Telephony Device",
            0x03 => "Audio Device",
            0x80 => "Other",
            _ => "Network Controller",
        },
        0x05 => match subclass {
            0x00 => "RAM Controller",
            0x01 => "Flash Controller",
            0x80 => "Other",
            _ => "Network Controller",
        },
        0x06 => match subclass {
            0x00 => "Host Bridge",
            0x01 => "ISA Bridge",
            0x02 => "EISA Bridge",
            0x03 => "MCA Bridge",
            0x04 => "PCI-to-PCI Bridge",
            0x05 => "PCMCIA Bridge",
            0x06 => "NuBus Bridge",
            0x07 => "CardBus Bridge",
            0x08 => "RACEway Bridge",
            0x09 => "PCI-to-PCI Bridge",
            0x0A => "InfiniBand-to-PCI Host Bridge",
            0x80 => "Other",
            _ => "Network Controller",
        },
        0x07 => match subclass {
            0x00 => "Serial Controller",
            0x01 => "Parallel Controller",
            0x02 => "Multiport Serial Controller",
            0x03 => "Modem",
            0x04 => "IEEE 488.1/2 (GPIB) Controller",
            0x05 => "Smart Card Controller",
            0x80 => "Other",
            _ => "Network Controller",
        },
        0x08 => match subclass {
            0x00 => "PIC",
            0x01 => "DMA Controller",
            0x02 => "Timer",
            0x03 => "RTC Controller",
            0x04 => "PCI Hot-Plug Controller",
            0x05 => "SD Host controller",
            0x06 => "IOMMU",
            0x80 => "Other",
            _ => "Network Controller",
        },
        0x09 => match subclass {
            0x00 => "Keyboard Controller",
            0x01 => "Digitizer Pen",
            0x02 => "Mouse Controller",
            0x03 => "Scanner Controller",
            0x04 => "Gameport Controller",
            0x80 => "Other",
            _ => "Network Controller",
        },
        0x0A => match subclass {
            0x00 => "Generic",
            0x80 => "Other",
            _ => "Docking Station",
        },
        0x0B => match subclass {
            0x00 => "386",
            0x01 => "486",
            0x02 => "Pentium",
            0x03 => "Pentium Pro",
            0x04 => "Alpha",
            0x05 => "PowerPC",
            0x06 => "MIPS",
            0x07 => "Co-Processor",
            0x80 => "Other",
            _ => "Docking Station",
        },
        0x0C => match subclass {
            0x00 => "FireWire (IEEE 1394) Controller",
            0x01 => "ACCESS Bus Controller",
            0x02 => "SSA",
            0x03 => "USB Controller",
            0x04 => "Fibre Channel",
            0x05 => "SMBus Controller",
            0x06 => "InfiniBand Controller",
            0x07 => "IPMI Interface",
            0x08 => "SERCOS Interface (IEC 61491)",
            0x09 => "CANbus Controller",
            0x80 => "Other",
            _ => "Docking Station",
        },
        0x0D => match subclass {
            0x00 => "iRDA Compatible Controller",
            0x01 => "Consumer IR Controller",
            0x10 => "RF Controller",
            0x11 => "Bluetooth Controller",
            0x12 => "Broadband Controller",
            0x20 => "Ethernet Controller (802.1a)",
            0x21 => "Ethernet Controller (802.1b)",
            0x80 => "Other",
            _ => "Docking Station",
        },
        _ => "Unknown",
    };
    s
}

} // verus!
