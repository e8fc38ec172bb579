//! The surrounding record formats and protocols: firmware tables, PCI
//! decoding, GUID text, the serial console and the transition protocol.

use kernel_core::acpi::{Header, MadtEntry, Signature, MADT, MCFG, RSDP, XSDT};
use kernel_core::guid::{parse_guid, wide_chars};
use kernel_core::interrupts::{
    register_handler, CpuSnapshot, HandlerTable, IOApic, InterruptIndex, RedirectionEntry,
    SCHEDULER_HANDLER, SCHEDULER_VECTOR,
};
use kernel_core::mem::{MemoryDescriptor, MemoryType, PageTableFrameAllocator};
use kernel_core::paging::MapPolicy;
use kernel_core::pci::{class_str, search_pci_device, BarResource, Device, DeviceType, BAR, PCI};
use kernel_core::process::{
    init, kernel_error_of, schedular, CopyAction, ManagedProcess, Process, ProcessManager, State,
};
use kernel_core::serial::SerialPort;
use kernel_core::transition::{
    enter_crossing, exit_crossing, launch_registers, restore_snapshot, save_snapshot,
    syscall_entry, syscall_entry_parts, test_process, ContextState, SyscallType,
};
use kernel_core::error::KernelError;
use kernel_core::paging::MapError;

fn acpi_table(sig: &[u8; 4], body: &[u8]) -> Vec<u8> {
    let mut t = vec![0u8; 36];
    t[0..4].copy_from_slice(sig);
    t.extend_from_slice(body);
    let len = t.len() as u32;
    t[4..8].copy_from_slice(&len.to_le_bytes());
    t
}

#[test]
fn acpi_header_reads_back() {
    let t = acpi_table(b"APIC", &[0u8; 8]);
    let h = Header::parse(&t, 0).unwrap();
    assert_eq!(h.signature(), &b"APIC".to_vec());
    assert_eq!(h.length, 44);
    assert!(Header::parse(&t[..10], 0).is_err());
    assert_eq!(Signature::MADT.as_bytes(), *b"APIC");
    assert_eq!(Signature::FADT.as_bytes(), *b"FACP");
    assert_eq!(Signature::MCFG.as_bytes(), *b"MCFG");
}

#[test]
fn xsdt_lists_its_table_addresses() {
    let mut body = Vec::new();
    body.extend_from_slice(&0x1111_2222_3333_4444u64.to_le_bytes());
    body.extend_from_slice(&0x5555_6666_7777_8888u64.to_le_bytes());
    let t = acpi_table(b"XSDT", &body);
    let x = XSDT::parse(&t).unwrap();
    assert_eq!(x.size(), 2);
    assert_eq!(x.tables, vec![0x1111_2222_3333_4444, 0x5555_6666_7777_8888]);
    let mut it = x.iter();
    assert_eq!(it.next(), Some(0x1111_2222_3333_4444));
    assert_eq!(it.next(), Some(0x5555_6666_7777_8888));
    assert_eq!(it.next(), None);
}

#[test]
fn mcfg_records_decode() {
    let mut body = vec![0u8; 8];
    body.extend_from_slice(&0xE000_0000u64.to_le_bytes());
    body.extend_from_slice(&1u16.to_le_bytes());
    body.push(0);
    body.push(255);
    body.extend_from_slice(&[0u8; 4]);
    let t = acpi_table(b"MCFG", &body);
    let m = MCFG::parse(&t).unwrap();
    assert_eq!(m.len(), 1);
    let mut it = m.iter();
    let e = it.next().unwrap();
    assert_eq!(e.address, 0xE000_0000);
    assert_eq!(e.segment, 1);
    assert_eq!(e.bus_start, 0);
    assert_eq!(e.bus_end, 255);
    assert!(it.next().is_none());
}

#[test]
fn madt_records_decode_by_type_and_length() {
    let mut body = Vec::new();
    body.extend_from_slice(&0xFEE0_0000u32.to_le_bytes());
    body.extend_from_slice(&1u32.to_le_bytes());
    // One processor record and one I/O APIC record.
    body.extend_from_slice(&[0, 8, 1, 2]);
    body.extend_from_slice(&5u32.to_le_bytes());
    body.extend_from_slice(&[1, 12, 9, 0]);
    body.extend_from_slice(&0xFEC0_0000u32.to_le_bytes());
    body.extend_from_slice(&0u32.to_le_bytes());
    let t = acpi_table(b"APIC", &body);
    let m = MADT::parse(&t).unwrap();
    assert_eq!(m.apic_address, 0xFEE0_0000);
    let mut it = m.iter();
    assert_eq!(
        it.next(),
        Some(MadtEntry::LocalApic { length: 8, processor_id: 1, apic_id: 2, flags: 5 })
    );
    assert_eq!(
        it.next(),
        Some(MadtEntry::IoApic { length: 12, io_apic_id: 9, io_apic_address: 0xFEC0_0000, gsi_base: 0 })
    );
    assert!(it.next().is_none());
    assert_eq!(m.io_apic_address(), Some(0xFEC0_0000));
}

#[test]
fn rsdp_points_at_the_directory() {
    let mut t = vec![0u8; 36];
    t[0..8].copy_from_slice(b"RSD PTR ");
    t[15] = 2;
    t[24..32].copy_from_slice(&0xDEAD_0000u64.to_le_bytes());
    let p = RSDP::parse(&t).unwrap();
    assert_eq!(p.signature, b"RSD PTR ".to_vec());
    assert_eq!(p.revision, 2);
    assert_eq!(p.xsdt, 0xDEAD_0000);
    assert!(RSDP::parse(&t[..20]).is_err());
}

#[test]
fn bar_bits_decode() {
    let io = BAR::from(0x0000_3001);
    assert!(io.used() && io.is_io() && !io.is_mem());
    assert_eq!(io.get_io(), 0x3000);
    let mem = BAR::from(0xE000_0008);
    assert!(mem.is_mem() && mem.is_prefetch() && !mem.is_64bit());
    assert_eq!(mem.get_address(), 0xE000_0008 & 0xFFFF_FFF0);
    let mem64 = BAR::from(0xD000_0004);
    assert!(mem64.is_64bit());
    assert!(!BAR::from(0).used());
}

#[test]
fn probed_bars_become_resources() {
    // A 32-bit memory range of 4 KiB, then an unused slot, then an I/O
    // range of 8 ports.
    let regs = vec![(0xE000_0000u32, 0xFFFF_F000u32), (0, 0), (0x3001, 0xFFFF_FFF9)];
    let out = PCI::get_bars(&regs);
    assert_eq!(out.len(), 2);
    assert_eq!(out[0], BarResource::Memory { base: 0xE000_0000, length: 0x1000 });
    assert_eq!(out[1], BarResource::IOPort { base: 0x3000, length: 8 });
}

#[test]
fn class_names_match_the_table() {
    assert_eq!(class_str(0x01, 0x06, 0), "Serial ATA Controller");
    assert_eq!(class_str(0x02, 0x00, 0), "Ethernet Controller");
    assert_eq!(class_str(0x06, 0x00, 0), "Host Bridge");
    assert_eq!(class_str(0x0C, 0x03, 0), "USB Controller");
    assert_eq!(class_str(0x01, 0x80, 0), "Other");
    assert_eq!(class_str(0xEE, 0x00, 0), "Unknown");
}

#[test]
fn configuration_addresses_pack_the_position() {
    assert_eq!(PCI::form_address(0xE000_0000, 0, 0, 0, 0), 0xE000_0000);
    assert_eq!(
        PCI::form_address(0xE000_0000, 1, 2, 3, 0x10),
        0xE000_0000 + (1 << 20) + (2 << 15) + (3 << 12) + 0x10
    );
}

#[test]
fn device_registry_finds_by_position() {
    let devices = vec![
        Device {
            device_type: DeviceType::PciDevice { segment: 0, bus: 1, device: 2, function: 0 },
            resource: vec![],
        },
        Device {
            device_type: DeviceType::PciDevice { segment: 0, bus: 3, device: 4, function: 1 },
            resource: vec![],
        },
    ];
    assert_eq!(search_pci_device(&devices, 0, 3, 4, 1), Some(1));
    assert_eq!(search_pci_device(&devices, 0, 3, 4, 0), None);
}

#[test]
fn guid_text_parses_into_its_fields() {
    let g = parse_guid(b"12345678-9abc-def0-1122-334455667788").unwrap();
    assert_eq!(g.a, 0x12345678);
    assert_eq!(g.b, 0x9abc);
    assert_eq!(g.c, 0xdef0);
    assert_eq!(g.d, vec![0x11, 0x22, 0x33, 0x44, 0x55, 0x66, 0x77, 0x88]);
    assert!(parse_guid(b"12345678-9abc-def0-1122-33445566778").is_none());
    assert!(parse_guid(b"1234567x-9abc-def0-1122-334455667788").is_none());
    assert!(parse_guid(b"12345678+9abc-def0-1122-334455667788").is_none());
}

#[test]
fn wide_chars_zero_extend_and_terminate() {
    assert_eq!(wide_chars(b"ab"), vec![0x61u16, 0x62, 0]);
    assert_eq!(wide_chars(b""), vec![0u16]);
}

#[test]
fn serial_write_expands_line_feeds() {
    let mut port = SerialPort::from(0x3F8);
    port.write(b"ok\n");
    port.write(b"x");
    assert_eq!(port.transmitted(), &b"ok\r\nx".to_vec());
    port.write_byte(b'\n');
    assert_eq!(port.transmitted(), &b"ok\r\nx\r\n".to_vec());
}

#[test]
fn snapshot_save_and_restore_are_symmetric() {
    let snap = CpuSnapshot {
        rbp: 1, r15: 2, r14: 3, r13: 4, r12: 5, r11: 6, r10: 7, r9: 8, r8: 9,
        rdi: 10, rsi: 11, rax: 12, rbx: 13, rcx: 14, rdx: 15,
    };
    let words = save_snapshot(&snap);
    assert_eq!(words.len(), 15);
    assert_eq!(words[0], 1);
    assert_eq!(words[14], 15);
    assert_eq!(restore_snapshot(&words), Some(snap));
    assert_eq!(restore_snapshot(&vec![0u64; 14]), None);
}

#[test]
fn crossing_restores_what_it_saved() {
    let c = enter_crossing(ContextState::ProcessContext, 0x9000, 0x100000);
    let (back, sp, root) = exit_crossing(c);
    assert_eq!(back, ContextState::ProcessContext);
    assert_eq!(sp, 0x9000);
    assert_eq!(root, 0x100000);
    let c2 = enter_crossing(ContextState::KernelContext, 0x7000, 0x200000);
    assert_eq!(exit_crossing(c2), (ContextState::KernelContext, 0x7000, 0x200000));
}

#[test]
fn syscall_plumbing() {
    assert_eq!(SyscallType::from(0), SyscallType::Write);
    assert_eq!(SyscallType::from(9), SyscallType::Unknown);
    assert_eq!(test_process(), SyscallType::Unknown.as_u64());
    let mut cpu = CpuSnapshot {
        rbp: 0, r15: 0, r14: 0, r13: 0, r12: 0, r11: 0, r10: 0, r9: 0, r8: 0,
        rdi: 0, rsi: 0, rax: 0, rbx: 0, rcx: 0, rdx: 0,
    };
    assert_eq!(syscall_entry(&cpu), SyscallType::Write);
    cpu.rdi = 5;
    assert_eq!(syscall_entry(&cpu), SyscallType::Unknown);
    let (lo, hi) = syscall_entry_parts(0xDEAD_BEEF_1234_5678);
    assert_eq!(lo, 0x1234_5678);
    assert_eq!(hi, 0xDEAD_BEEF);
}

#[test]
fn redirection_entry_encodes_its_fields() {
    let mut e = RedirectionEntry::new();
    e.set_vector(0x45);
    assert_eq!(e.get_low(), 0x45);
    e.set_delivery_mode(0b101);
    assert_eq!(e.get_low(), 0x45 | (0b101 << 8));
    e.set_mask(1);
    assert_eq!(e.get_low() & (1 << 16), 1 << 16);
    e.disable();
    assert_eq!(e.get_low() & (1 << 16), 0);
    e.enable();
    assert_eq!(e.get_low() & (1 << 16), 1 << 16);
    e.set_destination(0xAB);
    assert_eq!(e.get_high(), 0xAB << 24);
    e.set_trigger_mode(1);
    e.set_polarity(1);
    e.set_IRR(1);
    e.set_delivery_status(1);
    e.set_destination_mode(1);
    assert_eq!(e.get_low() & (0b11111 << 11), 0b11111 << 11);
}

#[test]
fn io_apic_writes_go_through_the_select_window_pair() {
    let mut apic = IOApic::new();
    let stores = apic.init(0xFEC0_0000);
    assert_eq!(
        stores,
        vec![
            (0xFEC0_0000, 0x12),
            (0xFEC0_0010, 0x45),
            (0xFEC0_0000, 0x13),
            (0xFEC0_0010, 0),
        ]
    );
    let mut e = RedirectionEntry::new();
    e.set_vector(0x30);
    let stores = apic.write_entry(2, &e);
    assert_eq!(stores[0], (0xFEC0_0000, 0x14));
    assert_eq!(stores[1], (0xFEC0_0010, 0x30));
    assert_eq!(stores[2], (0xFEC0_0000, 0x15));
    assert_eq!(stores[3], (0xFEC0_0010, 0));
}

#[test]
fn interrupt_lines_number_from_the_remap_base() {
    assert_eq!(InterruptIndex::Timer.as_u8(), 32);
    assert_eq!(InterruptIndex::Keyboard.as_u8(), 33);
    assert_eq!(InterruptIndex::SerialPort1.as_usize(), 35);
}

#[test]
fn manager_spawns_loads_and_schedules() {
    let mut alloc = PageTableFrameAllocator::new(vec![MemoryDescriptor {
        memory_type: MemoryType::Conventional,
        physical_address: 0x100000,
        virtual_address: 0,
        size: 64,
        attributes: 0,
    }]);
    let mut counter = 0u32;
    let ctx = kernel_core::process::BuildContext {
        phys_mem_size: None,
        kernel_code: None,
        kernel_stack: None,
        mmio_page: None,
        stack_top: kernel_core::memory_regions::PROCESS_STACK_ADDRESS,
        stack_pages: 1,
        policy: MapPolicy::Strict,
    };
    let p = Process::new(0x5000, &ctx, &mut alloc, &mut counter).unwrap();
    let root = p.address_space.root_addr();
    assert_eq!(
        launch_registers(&p),
        (0x5000, kernel_core::memory_regions::PROCESS_STACK_ADDRESS, root)
    );
    let managed = ManagedProcess::new_kernel_process(p);
    assert_eq!(managed.state, State::Ready);
    assert!(managed.kernel);
    assert_eq!(managed.load(), root);
    let mut mgr = ProcessManager::new();
    schedular(&mut mgr);
    assert_eq!(mgr.next_process, 0);
    managed.spawn(&mut mgr);
    assert_eq!(mgr.processes.len(), 1);
    schedular(&mut mgr);
    assert_eq!(mgr.next_process, 1);
    let mut table = HandlerTable::new();
    init(&mut table);
    assert_eq!(table.handlers, vec![(SCHEDULER_VECTOR, SCHEDULER_HANDLER)]);
    register_handler(&mut table, 0x21, 2);
    assert_eq!(table.handlers.len(), 2);
}

#[test]
fn errors_map_to_the_boot_taxonomy() {
    assert_eq!(kernel_error_of(MapError::FrameAllocationFailed), KernelError::AllocationExhausted);
    assert_eq!(kernel_error_of(MapError::PageAlreadyMapped(5)), KernelError::MappingConflict);
    assert_eq!(kernel_error_of(MapError::ParentEntryHugePage), KernelError::MappingConflict);
    let a = CopyAction { page: 1, frame: 2, offset_in_frame: 3, data: vec![4] };
    assert_eq!(a.data, vec![4]);
}
