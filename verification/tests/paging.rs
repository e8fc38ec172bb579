//! Page-table manager behaviour: mapping, conflicts under both
//! policies, huge pages, and the isolation of separate address spaces.

use kernel_core::mem::{MemoryDescriptor, MemoryType, PageTableFrameAllocator};
use kernel_core::paging::{AddressSpace, MapError, MapPolicy, PageFlags};
use kernel_core::process::map_boot_image_window;

fn region(pa: usize, pages: usize) -> Vec<MemoryDescriptor> {
    vec![MemoryDescriptor {
        memory_type: MemoryType::Conventional,
        physical_address: pa,
        virtual_address: 0,
        size: pages,
        attributes: 0,
    }]
}

fn flags() -> PageFlags {
    PageFlags { writable: true, user: true }
}

#[test]
fn fresh_space_translates_nothing() {
    let mut alloc = PageTableFrameAllocator::new(region(0x100000, 64));
    let aspace = AddressSpace::new_address_space(&mut alloc).unwrap();
    assert_eq!(aspace.root_addr(), 0x100000);
    assert_eq!(aspace.translate_page(0x1000), None);
    assert_eq!(aspace.translate(0xABC), None);
}

#[test]
fn map_then_translate() {
    let mut alloc = PageTableFrameAllocator::new(region(0x100000, 64));
    let mut aspace = AddressSpace::new_address_space(&mut alloc).unwrap();
    let frame = alloc.allocate_frame().unwrap();
    aspace.map(&mut alloc, 0x40_0000, frame, flags(), MapPolicy::Strict).unwrap();
    assert_eq!(aspace.translate_page(0x40_0000), Some(frame));
    assert_eq!(aspace.translate(0x40_0123), Some(frame + 0x123));
    // Neighbouring pages stay unmapped.
    assert_eq!(aspace.translate_page(0x3F_F000), None);
    assert_eq!(aspace.translate_page(0x40_1000), None);
}

#[test]
fn strict_policy_reports_a_conflict() {
    let mut alloc = PageTableFrameAllocator::new(region(0x100000, 64));
    let mut aspace = AddressSpace::new_address_space(&mut alloc).unwrap();
    let f1 = alloc.allocate_frame().unwrap();
    let f2 = alloc.allocate_frame().unwrap();
    aspace.map(&mut alloc, 0x40_0000, f1, flags(), MapPolicy::Strict).unwrap();
    let r = aspace.map(&mut alloc, 0x40_0000, f2, flags(), MapPolicy::Strict);
    assert_eq!(r, Err(MapError::PageAlreadyMapped(f1)));
    // The existing mapping stands untouched.
    assert_eq!(aspace.translate_page(0x40_0000), Some(f1));
}

#[test]
fn tolerant_policy_keeps_the_existing_mapping() {
    let mut alloc = PageTableFrameAllocator::new(region(0x100000, 64));
    let mut aspace = AddressSpace::new_address_space(&mut alloc).unwrap();
    let f1 = alloc.allocate_frame().unwrap();
    let f2 = alloc.allocate_frame().unwrap();
    aspace.map(&mut alloc, 0x40_0000, f1, flags(), MapPolicy::Tolerant).unwrap();
    // The second call is a no-op success: the first frame stays.
    aspace.map(&mut alloc, 0x40_0000, f2, flags(), MapPolicy::Tolerant).unwrap();
    assert_eq!(aspace.translate_page(0x40_0000), Some(f1));
}

#[test]
fn identity_map_maps_a_frame_to_itself() {
    let mut alloc = PageTableFrameAllocator::new(region(0x100000, 64));
    let mut aspace = AddressSpace::new_address_space(&mut alloc).unwrap();
    aspace.identity_map(&mut alloc, 0xFEE00000, PageFlags { writable: true, user: false },
        MapPolicy::Strict).unwrap();
    assert_eq!(aspace.translate_page(0xFEE00000), Some(0xFEE00000));
}

#[test]
fn exhausted_allocator_fails_the_walk() {
    // One frame only: the root consumes it, the first intermediate
    // level cannot be backed.
    let mut alloc = PageTableFrameAllocator::new(region(0x100000, 1));
    let mut aspace = AddressSpace::new_address_space(&mut alloc).unwrap();
    let r = aspace.map(&mut alloc, 0x40_0000, 0x200000, flags(), MapPolicy::Strict);
    assert_eq!(r, Err(MapError::FrameAllocationFailed));
    assert_eq!(aspace.translate_page(0x40_0000), None);
}

#[test]
fn huge_page_covers_its_gigabyte() {
    let mut alloc = PageTableFrameAllocator::new(region(0x100000, 64));
    let mut aspace = AddressSpace::new_address_space(&mut alloc).unwrap();
    let base = 0x4000_0000u64;
    aspace.map_huge_1g(&mut alloc, base, 0x8000_0000, PageFlags { writable: true, user: false })
        .unwrap();
    assert_eq!(aspace.translate_page(base), Some(0x8000_0000));
    assert_eq!(aspace.translate_page(base + 0x12000), Some(0x8001_2000));
    assert_eq!(aspace.translate_page(base - 0x1000), None);
    assert_eq!(aspace.translate_page(base + 0x4000_0000), None);
    // A 4 KiB walk through the huge entry reports the huge parent.
    let r = aspace.map(&mut alloc, base + 0x1000, 0x300000, flags(), MapPolicy::Strict);
    assert_eq!(r, Err(MapError::ParentEntryHugePage));
}

#[test]
fn two_megabyte_pages_cover_their_extent() {
    let mut alloc = PageTableFrameAllocator::new(region(0x100000, 64));
    let mut aspace = AddressSpace::new_address_space(&mut alloc).unwrap();
    let base = 0x20_0000u64;
    aspace.map_huge_2m(&mut alloc, base, 0x80_0000, PageFlags { writable: true, user: false })
        .unwrap();
    assert_eq!(aspace.translate_page(base), Some(0x80_0000));
    assert_eq!(aspace.translate_page(base + 0x3000), Some(0x80_3000));
    assert_eq!(aspace.translate_page(base - 0x1000), None);
    assert_eq!(aspace.translate_page(base + 0x20_0000), None);
}

#[test]
fn boot_image_window_maps_its_frames_in_order() {
    let mut alloc = PageTableFrameAllocator::new(region(0x100000, 64));
    let mut aspace = AddressSpace::new_address_space(&mut alloc).unwrap();
    let virt = 100 * 1024 * 1024 * 1024u64;
    // A container of three megabytes starting mid-way into a 2 MiB
    // frame touches three frames, end inclusive.
    map_boot_image_window(&mut aspace, &mut alloc, 0x30_0000, 0x30_0000, virt).unwrap();
    assert_eq!(aspace.translate_page(virt), Some(0x20_0000));
    assert_eq!(aspace.translate_page(virt + 0x20_0000), Some(0x40_0000));
    assert_eq!(aspace.translate_page(virt + 0x40_0000), Some(0x60_0000));
    assert_eq!(aspace.translate_page(virt + 0x1000), Some(0x20_1000));
    assert_eq!(aspace.translate_page(virt + 0x60_0000), None);
}

#[test]
fn separate_spaces_have_distinct_roots_and_do_not_interfere() {
    let mut alloc = PageTableFrameAllocator::new(region(0x100000, 128));
    let mut a = AddressSpace::new_address_space(&mut alloc).unwrap();
    let mut b = AddressSpace::new_address_space(&mut alloc).unwrap();
    assert_ne!(a.root_addr(), b.root_addr());
    let fa = alloc.allocate_frame().unwrap();
    let fb = alloc.allocate_frame().unwrap();
    a.map(&mut alloc, 0x40_0000, fa, flags(), MapPolicy::Strict).unwrap();
    // The same virtual page in the other space is untouched by the
    // first space's mapping, and takes its own frame independently.
    assert_eq!(b.translate_page(0x40_0000), None);
    b.map(&mut alloc, 0x40_0000, fb, flags(), MapPolicy::Strict).unwrap();
    assert_eq!(a.translate_page(0x40_0000), Some(fa));
    assert_eq!(b.translate_page(0x40_0000), Some(fb));
    assert_ne!(fa, fb);
}
