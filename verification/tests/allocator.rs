//! Frame allocator behaviour over concrete memory maps.

use kernel_core::mem::{
    addr, get_mem_size, virtualize_runtime_map, MemoryDescriptor, MemoryType,
    PageTableFrameAllocator, MEMORY_RUNTIME_ATTRIBUTE,
};

fn desc(t: MemoryType, pa: usize, pages: usize) -> MemoryDescriptor {
    MemoryDescriptor {
        memory_type: t,
        physical_address: pa,
        virtual_address: 0,
        size: pages,
        attributes: 0,
    }
}

#[test]
fn yields_usable_frames_in_order() {
    let map = vec![
        desc(MemoryType::Reserved, 0x0, 16),
        desc(MemoryType::Conventional, 0x10000, 3),
        desc(MemoryType::LoaderCode, 0x20000, 4),
        desc(MemoryType::Conventional, 0x40000, 2),
    ];
    let mut alloc = PageTableFrameAllocator::new(map);
    assert_eq!(alloc.allocate_frame(), Some(0x10000));
    assert_eq!(alloc.allocate_frame(), Some(0x11000));
    assert_eq!(alloc.allocate_frame(), Some(0x12000));
    assert_eq!(alloc.allocate_frame(), Some(0x40000));
    assert_eq!(alloc.allocate_frame(), Some(0x41000));
    assert_eq!(alloc.allocate_frame(), None);
    assert_eq!(alloc.allocate_frame(), None);
}

#[test]
fn never_yields_an_address_twice() {
    let map = vec![
        desc(MemoryType::Conventional, 0x1000, 4),
        desc(MemoryType::Unusable, 0x8000, 4),
        desc(MemoryType::Conventional, 0x10000, 4),
    ];
    let mut alloc = PageTableFrameAllocator::new(map);
    let mut seen = Vec::new();
    while let Some(f) = alloc.allocate_frame() {
        assert!(!seen.contains(&f), "frame {f:#x} yielded twice");
        assert_eq!(f % 4096, 0);
        let in_first = (0x1000..0x5000).contains(&f);
        let in_second = (0x10000..0x14000).contains(&f);
        assert!(in_first || in_second, "frame {f:#x} outside usable regions");
        seen.push(f);
    }
    assert_eq!(seen.len(), 8);
}

#[test]
fn empty_and_unusable_maps_yield_nothing() {
    let mut none = PageTableFrameAllocator::new(vec![]);
    assert_eq!(none.allocate_frame(), None);
    let mut reserved = PageTableFrameAllocator::new(vec![desc(MemoryType::Reserved, 0x1000, 8)]);
    assert_eq!(reserved.allocate_frame(), None);
}

#[test]
fn allocate_size_draws_whole_runs() {
    let map = vec![desc(MemoryType::Conventional, 0x4000, 4)];
    let mut alloc = PageTableFrameAllocator::new(map);
    // A request below one page draws nothing and reports address zero.
    assert_eq!(alloc.allocate_size(100), Some((0, 0)));
    assert_eq!(alloc.allocate_size(2 * 4096), Some((0x4000, 2)));
    assert_eq!(alloc.allocate_frame(), Some(0x6000));
    // Only one frame left: a two-page run fails and the rest is gone.
    assert_eq!(alloc.allocate_size(2 * 4096), None);
    assert_eq!(alloc.allocate_frame(), None);
}

#[test]
fn swap_map_skips_up_to_the_watermark() {
    let map = vec![desc(MemoryType::Conventional, 0x10000, 8)];
    let mut alloc = PageTableFrameAllocator::new(map);
    assert_eq!(alloc.allocate_frame(), Some(0x10000));
    // The swap draws 0x11000 as the watermark, drops the one usable
    // descriptor starting below it, and also consumes the first one at
    // or past it: allocation resumes in the descriptor after that.
    let new_map = vec![
        desc(MemoryType::Conventional, 0x0, 2),
        desc(MemoryType::Conventional, 0x20000, 2),
        desc(MemoryType::Conventional, 0x40000, 2),
    ];
    alloc.swap_map(new_map);
    assert_eq!(alloc.allocate_frame(), Some(0x40000));
    assert_eq!(alloc.allocate_frame(), Some(0x41000));
    assert_eq!(alloc.allocate_frame(), None);
}

#[test]
fn usable_frames_lists_the_whole_stream() {
    let map = vec![
        desc(MemoryType::Conventional, 0x1000, 2),
        desc(MemoryType::BootServicesData, 0x5000, 1),
        desc(MemoryType::Conventional, 0x9000, 1),
    ];
    let alloc = PageTableFrameAllocator::new(map);
    assert_eq!(alloc.usable_frames(), vec![0x1000, 0x2000, 0x9000]);
}

#[test]
fn mem_size_sums_usable_bytes() {
    let map = vec![
        desc(MemoryType::Conventional, 0x1000, 2),
        desc(MemoryType::Reserved, 0x5000, 7),
        desc(MemoryType::Conventional, 0x9000, 3),
    ];
    assert_eq!(get_mem_size(&map), 5 * 4096);
    assert_eq!(get_mem_size(&vec![]), 0);
}

#[test]
fn runtime_descriptors_get_their_physical_address() {
    let mut d1 = desc(MemoryType::RuntimeServicesCode, 0x7000, 1);
    d1.attributes = MEMORY_RUNTIME_ATTRIBUTE;
    d1.virtual_address = 0;
    let d2 = desc(MemoryType::Conventional, 0x9000, 1);
    let out = virtualize_runtime_map(&vec![d1, d2]);
    assert_eq!(out[0].virtual_address, 0x7000);
    assert_eq!(out[0].physical_address, 0x7000);
    assert_eq!(out[1], d2);
}

#[test]
fn memory_type_tags() {
    assert!(MemoryType::Conventional.is_usable());
    assert!(!MemoryType::BootServicesData.is_usable());
    assert!(!MemoryType::Reserved.is_usable());
    assert_eq!(MemoryType::Conventional.as_u8(), 7);
    assert_eq!(MemoryType::Reserved.as_u8(), 0);
    assert_eq!(MemoryType::default(), MemoryType::Reserved);
}

#[test]
fn stack_relocation_keeps_the_offset() {
    assert_eq!(addr(0x900, 0x1000, 0x8000), 0x7900);
    assert_eq!(addr(0x1000, 0x1000, 0x8000), 0x8000);
}
