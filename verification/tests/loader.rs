//! Image loading and process construction, end to end on synthetic
//! images.

use kernel_core::elf::{ElfFile, ProgramHeaderIterator, SegmentType};
use kernel_core::error::KernelError;
use kernel_core::mem::{MemoryDescriptor, MemoryType, PageTableFrameAllocator};
use kernel_core::memory_regions::PROCESS_STACK_ADDRESS;
use kernel_core::paging::MapPolicy;
use kernel_core::process::{BuildContext, Process};

fn region(pa: usize, pages: usize) -> Vec<MemoryDescriptor> {
    vec![MemoryDescriptor {
        memory_type: MemoryType::Conventional,
        physical_address: pa,
        virtual_address: 0,
        size: pages,
        attributes: 0,
    }]
}

fn put16(b: &mut [u8], off: usize, v: u16) {
    b[off..off + 2].copy_from_slice(&v.to_le_bytes());
}

fn put64(b: &mut [u8], off: usize, v: u64) {
    b[off..off + 8].copy_from_slice(&v.to_le_bytes());
}

/// Builds a minimal image: the fixed header, one program-header record
/// per segment, then the segment file bytes back to back.
fn make_image(entry: u64, segments: &[(u64, u64, Vec<u8>)]) -> Vec<u8> {
    let table = 64usize;
    let data_base = table + 56 * segments.len();
    let total: usize = data_base + segments.iter().map(|s| s.2.len()).sum::<usize>();
    let mut img = vec![0u8; total];
    put64(&mut img, 24, entry);
    put64(&mut img, 32, table as u64);
    put16(&mut img, 54, 56);
    put16(&mut img, 56, segments.len() as u16);
    let mut file_off = data_base;
    for (i, (va, mem, data)) in segments.iter().enumerate() {
        let rec = table + 56 * i;
        img[rec..rec + 4].copy_from_slice(&1u32.to_le_bytes());
        put64(&mut img, rec + 8, file_off as u64);
        put64(&mut img, rec + 16, *va);
        put64(&mut img, rec + 32, data.len() as u64);
        put64(&mut img, rec + 40, *mem);
        img[file_off..file_off + data.len()].copy_from_slice(data);
        file_off += data.len();
    }
    img
}

fn plain_ctx(stack_pages: u64) -> BuildContext {
    BuildContext {
        phys_mem_size: None,
        kernel_code: None,
        kernel_stack: None,
        mmio_page: None,
        stack_top: PROCESS_STACK_ADDRESS,
        stack_pages,
        policy: MapPolicy::Strict,
    }
}

#[test]
fn header_fields_read_back() {
    let img = make_image(0xCAFE, &[(0x40_0000, 4096, vec![9u8; 100])]);
    let elf = ElfFile::new(&img);
    let h = elf.header().unwrap();
    assert_eq!(h.entry, 0xCAFE);
    assert_eq!(h.prg_entry_size, 56);
    assert_eq!(h.prg_entry_count, 1);
    let phs = elf.program_headers().unwrap();
    assert_eq!(phs.len(), 1);
    assert_eq!(phs[0].virtual_address, 0x40_0000);
    assert_eq!(phs[0].mem_size, 4096);
    assert_eq!(phs[0].file_size, 100);
    assert!(phs[0].is_load());
    assert_eq!(SegmentType::from_u32(phs[0].segment_type), SegmentType::Load);
}

#[test]
fn wrong_stride_is_a_malformed_image() {
    let mut img = make_image(0, &[]);
    put16(&mut img, 54, 32);
    let elf = ElfFile::new(&img);
    assert_eq!(elf.program_headers(), Err(KernelError::MalformedImage));
    let short = [0u8; 10];
    assert!(ElfFile::new(&short).header().is_err());
}

#[test]
fn segment_bytes_and_pure_bss() {
    let img = make_image(0, &[(0x1000, 8192, b"payload".to_vec()), (0x9000, 4096, vec![])]);
    let elf = ElfFile::new(&img);
    let phs = elf.program_headers().unwrap();
    assert_eq!(elf.segment(&phs[0]).unwrap(), b"payload");
    // A segment without file bytes owns no slice.
    assert!(elf.segment(&phs[1]).is_none());
}

#[test]
fn program_header_iterator_is_finite() {
    let img = make_image(0, &[(0x1000, 100, vec![1]), (0x2000, 100, vec![2])]);
    let elf = ElfFile::new(&img);
    let phs = elf.program_headers().unwrap();
    let mut it = ProgramHeaderIterator::new(phs);
    assert_eq!(it.next().unwrap().virtual_address, 0x1000);
    assert_eq!(it.next().unwrap().virtual_address, 0x2000);
    assert!(it.next().is_none());
}

#[test]
fn loader_maps_three_pages_and_copies_the_file_bytes_exactly() {
    // A segment with more memory than file bytes: 9000 bytes of memory
    // over 5000 file bytes covers ceil(9000 / 4096) = 3 pages.
    let payload: Vec<u8> = (0..5000u32).map(|i| (i % 251) as u8).collect();
    let img = make_image(0x40_0000, &[(0x40_0000, 9000, payload.clone())]);
    let elf = ElfFile::new(&img);
    let mut alloc = PageTableFrameAllocator::new(region(0x100000, 128));
    let mut counter = 0u32;
    let (proc_, actions) =
        Process::kernel_from_elf(&elf, &plain_ctx(2), &mut alloc, &mut counter).unwrap();
    assert_eq!(actions.len(), 3);
    assert_eq!(actions[0].page, 0x40_0000);
    assert_eq!(actions[1].page, 0x40_1000);
    assert_eq!(actions[2].page, 0x40_2000);
    // The first 5000 bytes copied are exactly the source file bytes.
    assert_eq!(actions[0].data, payload[0..4096].to_vec());
    assert_eq!(actions[1].data, payload[4096..5000].to_vec());
    let mut copied = actions[0].data.clone();
    copied.extend_from_slice(&actions[1].data);
    assert_eq!(copied, payload);
    // The page past the file's extent receives the final chunk again,
    // as the copy loop's cursor stops advancing.
    assert_eq!(actions[2].data, payload[4096..5000].to_vec());
    for a in &actions {
        assert_eq!(a.offset_in_frame, 0);
        assert_eq!(proc_.address_space.translate_page(a.page), Some(a.frame));
    }
}

#[test]
fn construction_end_to_end_over_one_region() {
    // One usable 1 MiB region, a 2-page image with a single LOAD
    // segment fully backed by file bytes.
    let payload: Vec<u8> = (0..8192u32).map(|i| (i % 249) as u8).collect();
    let img = make_image(0x40_0000, &[(0x40_0000, 8192, payload.clone())]);
    let elf = ElfFile::new(&img);
    let mut alloc = PageTableFrameAllocator::new(region(0x100000, 256));
    let mut counter = 7u32;
    let (proc_, actions) =
        Process::kernel_from_elf(&elf, &plain_ctx(2), &mut alloc, &mut counter).unwrap();
    // The entry value is the header's declared entry.
    assert_eq!(proc_.entry, 0x40_0000);
    assert_eq!(proc_.stack_base, PROCESS_STACK_ADDRESS);
    assert_eq!(proc_.id, 7);
    assert_eq!(counter, 8);
    assert_eq!(actions.len(), 2);
    // Frames consumed: 2 segment pages and the 2 stack pages, plus the
    // table nodes the same allocator backs: the root, one shared
    // depth-one node, a depth-two and depth-three node for the segment,
    // and — since the stack top sits exactly on a gigabyte boundary,
    // putting its two pages in different gigabytes — two depth-two and
    // two depth-three nodes for the stack.
    let mut left = 0usize;
    while alloc.allocate_frame().is_some() {
        left += 1;
    }
    let consumed = 256 - left;
    let tables = 1 + 1 + 1 + 1 + 2 + 2;
    assert_eq!(consumed, 2 + 2 + tables);
    // Both segment pages and both stack pages translate.
    assert!(proc_.address_space.translate_page(0x40_0000).is_some());
    assert!(proc_.address_space.translate_page(0x40_1000).is_some());
    assert!(proc_.address_space.translate_page(PROCESS_STACK_ADDRESS).is_some());
    assert!(proc_.address_space.translate_page(PROCESS_STACK_ADDRESS - 4096).is_some());
}

#[test]
fn companion_segments_are_shared_from_the_current_space() {
    // Build one process, then a second one whose companion image's
    // pages are read through the first one's address space.
    let payload: Vec<u8> = vec![3u8; 4096];
    let kernel_img = make_image(0x40_0000, &[(0x40_0000, 4096, payload.clone())]);
    let kernel_elf = ElfFile::new(&kernel_img);
    let user_img = make_image(0x80_0000, &[(0x80_0000, 4096, vec![5u8; 4096])]);
    let user_elf = ElfFile::new(&user_img);
    let mut alloc = PageTableFrameAllocator::new(region(0x100000, 256));
    let mut counter = 0u32;
    let (kproc, _) =
        Process::kernel_from_elf(&kernel_elf, &plain_ctx(1), &mut alloc, &mut counter).unwrap();
    let (uproc, _) = Process::from_elf(
        &user_elf,
        &kernel_elf,
        &plain_ctx(1),
        &kproc.address_space,
        &mut alloc,
        &mut counter,
    )
    .unwrap();
    // The process's entry is the primary image's declared entry, not
    // the companion kernel's.
    assert_eq!(uproc.entry, 0x80_0000);
    assert_eq!(uproc.id, 1);
    // The companion's page is shared: both spaces resolve it to the
    // same frame.
    let shared = kproc.address_space.translate_page(0x40_0000).unwrap();
    assert_eq!(uproc.address_space.translate_page(0x40_0000), Some(shared));
    // The primary segment got its own fresh frame.
    assert!(uproc.address_space.translate_page(0x80_0000).is_some());
}

#[test]
fn companion_page_missing_from_the_current_space_fails() {
    // The companion image's page is not mapped anywhere in the current
    // space: its read-through translation fails.
    let kernel_img = make_image(0x40_0000, &[(0x40_0000, 4096, vec![1u8; 4096])]);
    let kernel_elf = ElfFile::new(&kernel_img);
    let user_img = make_image(0x80_0000, &[(0x80_0000, 4096, vec![2u8; 4096])]);
    let user_elf = ElfFile::new(&user_img);
    let mut alloc = PageTableFrameAllocator::new(region(0x100000, 256));
    let mut counter = 0u32;
    let empty = kernel_core::paging::AddressSpace::new_address_space(&mut alloc).unwrap();
    let r = Process::from_elf(
        &user_elf,
        &kernel_elf,
        &plain_ctx(1),
        &empty,
        &mut alloc,
        &mut counter,
    );
    let e = match r {
        Err(e) => e,
        Ok(_) => panic!("companion mapping succeeded without a source"),
    };
    assert_eq!(e, KernelError::TranslationFailure);
}

#[test]
fn overlapping_segments_conflict_under_the_strict_policy() {
    // Two LOAD segments claiming the same page: the strict pass stops
    // at the conflict; the tolerant pass keeps the first mapping and
    // carries on.
    let img = make_image(
        0x40_0000,
        &[(0x40_0000, 4096, vec![1u8; 4096]), (0x40_0000, 4096, vec![2u8; 4096])],
    );
    let elf = ElfFile::new(&img);
    let mut alloc = PageTableFrameAllocator::new(region(0x100000, 256));
    let mut counter = 0u32;
    let r = Process::kernel_from_elf(&elf, &plain_ctx(1), &mut alloc, &mut counter);
    let e = match r {
        Err(e) => e,
        Ok(_) => panic!("strict build accepted overlapping segments"),
    };
    assert_eq!(e, KernelError::MappingConflict);
    let mut tolerant = plain_ctx(1);
    tolerant.policy = MapPolicy::Tolerant;
    let mut alloc = PageTableFrameAllocator::new(region(0x100000, 256));
    let (proc_, actions) =
        Process::kernel_from_elf(&elf, &tolerant, &mut alloc, &mut counter).unwrap();
    assert_eq!(actions.len(), 2);
    // The page keeps the first segment's frame.
    assert_eq!(proc_.address_space.translate_page(0x40_0000), Some(actions[0].frame));
}

#[test]
fn out_of_memory_construction_fails() {
    let img = make_image(0, &[(0x40_0000, 8192, vec![1u8; 8192])]);
    let elf = ElfFile::new(&img);
    let mut alloc = PageTableFrameAllocator::new(region(0x100000, 3));
    let mut counter = 0u32;
    let r = Process::kernel_from_elf(&elf, &plain_ctx(2), &mut alloc, &mut counter);
    let e = match r {
        Err(e) => e,
        Ok(_) => panic!("construction succeeded without memory"),
    };
    assert_eq!(e, KernelError::AllocationExhausted);
}

#[test]
fn entry_process_maps_one_stack_page() {
    let mut alloc = PageTableFrameAllocator::new(region(0x100000, 64));
    let mut counter = 3u32;
    let p = Process::new(0x1234, &plain_ctx(1), &mut alloc, &mut counter).unwrap();
    assert_eq!(p.entry, 0x1234);
    assert_eq!(p.id, 3);
    assert!(p.address_space.translate_page(PROCESS_STACK_ADDRESS).is_some());
    let (lo, hi) = Process::get_stack();
    assert_eq!(hi, PROCESS_STACK_ADDRESS);
    assert_eq!(hi - lo, 1024 * 1024);
}
