//! Process construction.
//!
//! The builder takes a parsed executable image, a fresh address space and
//! the frame allocator, and produces a `Process`: it maps the fixed
//! kernel ranges and the physical-memory window into the new space,
//! allocates and maps a process stack at the reserved high address, and
//! allocates, maps and schedules the copy of every LOAD segment's file
//! bytes. The copies themselves are returned as plain data — which frame
//! receives which bytes at which offset — since only the running kernel
//! can touch physical memory.

use vstd::prelude::*;

use crate::elf::{ElfFile, ProgramHeader};
use crate::error::KernelError;
use crate::mem::PageTableFrameAllocator;
use crate::paging::{valid_page, AddressSpace, MapError, MapPolicy, PageFlags, PageTableEntry};

verus! {

broadcast use vstd::slice::group_slice_axioms;

/// Scheduling state of a managed process.
#[derive(Clone, Copy, Debug, PartialEq, Eq, Structural)]
pub enum State {
    Ready,
    Blocked,
    Running,
}

/// One pending copy of segment bytes into a freshly allocated frame:
/// `data` is to be placed `offset_in_frame` bytes into frame `frame`,
/// which backs the virtual page `page` of the new address space.
#[derive(Clone, Debug)]
pub struct CopyAction {
    pub page: u64,
    pub frame: u64,
    pub offset_in_frame: u64,
    pub data: Vec<u8>,
}

/// Existing mappings never move: whatever translated before still
/// translates to the same frame afterwards. Every mapping operation of
/// the builder preserves this — a leaf entry is written only once.
pub open spec fn preserves_mappings(a: AddressSpace, b: AddressSpace) -> bool {
    forall|p: u64|
        valid_page(p) && a.spec_translate_page(p) is Some ==> #[trigger] b.spec_translate_page(p)
            == a.spec_translate_page(p)
}

/// Mapping preservation composes across build phases.
pub proof fn lemma_preserves_mappings_trans(a: AddressSpace, b: AddressSpace, c: AddressSpace)
    requires
        preserves_mappings(a, b),
        preserves_mappings(b, c),
    ensures
        preserves_mappings(a, c),
{
    assert forall|p: u64|
        valid_page(p) && a.spec_translate_page(p) is Some implies #[trigger] c.spec_translate_page(
        p,
    ) == a.spec_translate_page(p) by {
        assert(b.spec_translate_page(p) == a.spec_translate_page(p));
    }
}

/// Maps the whole of physical memory, in 1 GiB pages, at the fixed
/// physical-memory window offset of the new space: frame `k` GiB appears
/// at window + `k` GiB, covering every byte up to `mem_size` inclusive.
pub fn map_physical_window(
    aspace: &mut AddressSpace,
    alloc: &mut PageTableFrameAllocator,
    mem_size: u64,
) -> (r: Result<(), MapError>)
    requires
        old(aspace).wf(),
        old(alloc).inv(),
        crate::mem::disjoint_usable(old(alloc).map_view()),
        old(aspace).fresh_frames(*old(alloc)),
        crate::memory_regions::PAGE_TABLE_OFFSET + (mem_size / 0x4000_0000 + 1) * 0x4000_0000
            <= 0x1_0000_0000_0000,
    ensures
        final(aspace).wf(),
        final(alloc).inv(),
        final(alloc).map_view() == old(alloc).map_view(),
        final(aspace).spec_root() == old(aspace).spec_root(),
        final(aspace).fresh_frames(*final(alloc)),
        final(alloc).position() - old(alloc).position() == final(aspace).table_count() - old(aspace).table_count(),
        forall|a: int| old(aspace).is_table(a) ==> final(aspace).is_table(a),
        preserves_mappings(*old(aspace), *final(aspace)),
        forall|p: u64|
            valid_page(p) && !(crate::memory_regions::PAGE_TABLE_OFFSET <= p
                < crate::memory_regions::PAGE_TABLE_OFFSET + (mem_size / 0x4000_0000 + 1)
                * 0x4000_0000) ==> #[trigger] final(aspace).spec_translate_page(p) == old(aspace).spec_translate_page(p),
        forall|p: u64|
            valid_page(p) && !(crate::memory_regions::PAGE_TABLE_OFFSET <= p
                < crate::memory_regions::PAGE_TABLE_OFFSET + (mem_size / 0x4000_0000 + 1)
                * 0x4000_0000) ==> #[trigger] final(aspace).spec_path_blocked(p) == old(aspace).spec_path_blocked(p) && final(aspace).spec_gig_entry_present(p) == old(aspace).spec_gig_entry_present(p),
        forall|p: u64|
            valid_page(p) ==> #[trigger] final(aspace).spec_leaf_entry(p) == old(aspace).spec_leaf_entry(p),
        r matches Err(e) ==> e is FrameAllocationFailed || exists|k: u64|
            0 <= k < mem_size / 0x4000_0000 + 1 && {
                ||| #[trigger] old(aspace).spec_gig_entry_present(
                    (crate::memory_regions::PAGE_TABLE_OFFSET + k * 0x4000_0000) as u64,
                )
                ||| old(aspace).spec_path_blocked(
                    (crate::memory_regions::PAGE_TABLE_OFFSET + k * 0x4000_0000) as u64,
                )
            },
        r is Ok ==> forall|p: u64|
            valid_page(p) && crate::memory_regions::PAGE_TABLE_OFFSET <= p
                < crate::memory_regions::PAGE_TABLE_OFFSET + (mem_size / 0x4000_0000 + 1)
                * 0x4000_0000 ==> #[trigger] final(aspace).spec_translate_page(p) == Some(
                (p - crate::memory_regions::PAGE_TABLE_OFFSET) as u64,
            ),
        r matches Err(MapError::FrameAllocationFailed) ==> final(alloc).position() == final(alloc).stream().len(),
{
    let count = mem_size / 0x4000_0000 + 1;
    let base = crate::memory_regions::PAGE_TABLE_OFFSET;
    let mut k: u64 = 0;
    proof {
        assert(base % 0x4000_0000 == 0);
    }
    while k < count
        invariant
            aspace.wf(),
            alloc.inv(),
            alloc.map_view() == old(alloc).map_view(),
            crate::mem::disjoint_usable(alloc.map_view()),
            aspace.fresh_frames(*alloc),
            aspace.spec_root() == old(aspace).spec_root(),
            alloc.position() - old(alloc).position() == aspace.table_count() - old(aspace).table_count(),
            forall|a: int| old(aspace).is_table(a) ==> aspace.is_table(a),
            preserves_mappings(*old(aspace), *aspace),
            k <= count,
            count == mem_size / 0x4000_0000 + 1,
            base == crate::memory_regions::PAGE_TABLE_OFFSET,
            base % 0x4000_0000 == 0,
            base + count * 0x4000_0000 <= 0x1_0000_0000_0000,
            forall|p: u64|
                valid_page(p) && !(base <= p < base + count * 0x4000_0000)
                    ==> #[trigger] aspace.spec_translate_page(p) == old(aspace).spec_translate_page(p),
            forall|p: u64|
                valid_page(p) && !(base <= p < base + k * 0x4000_0000)
                    ==> #[trigger] aspace.spec_path_blocked(p) == old(aspace).spec_path_blocked(p) && aspace.spec_gig_entry_present(p) == old(aspace).spec_gig_entry_present(p),
            forall|p: u64|
                valid_page(p) ==> #[trigger] aspace.spec_leaf_entry(p) == old(aspace).spec_leaf_entry(p),
            forall|p: u64|
                valid_page(p) && base <= p < base + k * 0x4000_0000
                    ==> #[trigger] aspace.spec_translate_page(p) == Some((p - base) as u64),
        decreases count - k,
    {
        let page = base + k * 0x4000_0000;
        let phys = k * 0x4000_0000;
        let ghost prev = *aspace;
        proof {
            assert(page % 0x4000_0000 == 0) by (nonlinear_arith)
                requires
                    base % 0x4000_0000 == 0,
                    page == base + k * 0x4000_0000,
            ;
            assert(valid_page(page)) by {
                assert(page % 4096 == 0) by (nonlinear_arith)
                    requires
                        page % 0x4000_0000 == 0,
                ;
            }
            assert(!(base <= page < base + k * 0x4000_0000));
            assert(aspace.spec_path_blocked(page) == old(aspace).spec_path_blocked(page)
                && aspace.spec_gig_entry_present(page) == old(aspace).spec_gig_entry_present(page));
        }
        match aspace.map_huge_1g(
            alloc,
            page,
            phys,
            PageFlags { writable: true, user: false },
        ) {
            Ok(_) => {},
            Err(e) => {
                proof {
                    alloc.lemma_cursor_bounds();
                    if !(e is FrameAllocationFailed) {
                        assert(old(aspace).spec_gig_entry_present(page) || old(aspace).spec_path_blocked(page));
                    }
                    assert forall|p: u64|
                        valid_page(p) && !(base <= p < base + count * 0x4000_0000) implies
                        #[trigger] aspace.spec_path_blocked(p) == old(aspace).spec_path_blocked(p)
                        && aspace.spec_gig_entry_present(p) == old(aspace).spec_gig_entry_present(p) by {
                        assert(p >> 30 != page >> 30) by (bit_vector)
                            requires
                                !(page <= p < page + 0x4000_0000),
                                page % 0x4000_0000 == 0,
                        ;
                        assert(prev.spec_path_blocked(p) == old(aspace).spec_path_blocked(p));
                        assert(prev.spec_gig_entry_present(p) == old(aspace).spec_gig_entry_present(p));
                    }
                    assert forall|p: u64| valid_page(p) implies #[trigger] aspace.spec_leaf_entry(
                        p,
                    ) == old(aspace).spec_leaf_entry(p) by {
                        assert(prev.spec_leaf_entry(p) == old(aspace).spec_leaf_entry(p));
                    }
                }
                return Err(e);
            },
        }
        proof {
            assert forall|p: u64|
                valid_page(p) && !(base <= p < base + (k + 1) * 0x4000_0000) implies #[trigger] aspace.spec_path_blocked(
                p,
            ) == old(aspace).spec_path_blocked(p) && aspace.spec_gig_entry_present(p) == old(aspace).spec_gig_entry_present(p) by {
                assert(p >> 30 != page >> 30) by (bit_vector)
                    requires
                        !(page <= p < page + 0x4000_0000),
                        page % 0x4000_0000 == 0,
                ;
                assert(prev.spec_path_blocked(p) == old(aspace).spec_path_blocked(p));
                assert(prev.spec_gig_entry_present(p) == old(aspace).spec_gig_entry_present(p));
            }
            assert forall|p: u64| valid_page(p) && base <= p < base + (k + 1) * 0x4000_0000 implies
                #[trigger] aspace.spec_translate_page(p) == Some((p - base) as u64) by {
                if p < base + k * 0x4000_0000 {
                    assert(prev.spec_translate_page(p) == Some((p - base) as u64));
                    assert(p >> 30 != page >> 30) by (bit_vector)
                        requires
                            p < page,
                            page % 0x4000_0000 == 0,
                    ;
                } else {
                    assert(p >> 30 == page >> 30) by (bit_vector)
                        requires
                            page <= p < page + 0x4000_0000,
                            page % 0x4000_0000 == 0,
                    ;
                    assert(p % 0x4000_0000 == p - page) by (bit_vector)
                        requires
                            page <= p < page + 0x4000_0000,
                            page % 0x4000_0000 == 0,
                    ;
                    assert(aspace.spec_translate_page(p) == Some((phys + p % 0x4000_0000) as u64));
                }
            }
            assert forall|p: u64|
                valid_page(p) && !(base <= p < base + count * 0x4000_0000) implies #[trigger] aspace.spec_translate_page(
                p,
            ) == old(aspace).spec_translate_page(p) by {
                assert(p >> 30 != page >> 30) by (bit_vector)
                    requires
                        !(page <= p < page + 0x4000_0000),
                        page % 0x4000_0000 == 0,
                ;
                assert(prev.spec_translate_page(p) == old(aspace).spec_translate_page(p));
            }
            assert forall|p: u64|
                valid_page(p) && prev.spec_translate_page(p) is Some implies #[trigger] aspace.spec_translate_page(
                p,
            ) == prev.spec_translate_page(p) by {
                if p >> 30 == page >> 30 {
                    assert(prev.spec_translate_page(p) is None);
                }
            }
            lemma_preserves_mappings_trans(*old(aspace), prev, *aspace);
        }
        k = k + 1;
    }
    Ok(())
}

/// Allocates one fresh frame per stack page and maps the pages ending
/// at `stack_top` downward, user-accessible and writable. Mapping is
/// attempted only for frames whose allocation succeeded.
pub fn map_stack(
    aspace: &mut AddressSpace,
    alloc: &mut PageTableFrameAllocator,
    stack_top: u64,
    pages: u64,
) -> (r: Result<(), MapError>)
    requires
        old(aspace).wf(),
        old(alloc).inv(),
        crate::mem::disjoint_usable(old(alloc).map_view()),
        old(aspace).fresh_frames(*old(alloc)),
        stack_top % 4096 == 0,
        stack_top < 0x1_0000_0000_0000,
        4096 * pages <= stack_top,
    ensures
        final(aspace).wf(),
        final(alloc).inv(),
        final(alloc).map_view() == old(alloc).map_view(),
        final(aspace).spec_root() == old(aspace).spec_root(),
        final(aspace).fresh_frames(*final(alloc)),
        forall|a: int| old(aspace).is_table(a) ==> final(aspace).is_table(a),
        preserves_mappings(*old(aspace), *final(aspace)),
        forall|p: u64|
            valid_page(p) && !(stack_top - 4096 * pages < p <= stack_top)
                ==> #[trigger] final(aspace).spec_translate_page(p) == old(aspace).spec_translate_page(p),
        forall|p: u64|
            valid_page(p) ==> #[trigger] final(aspace).spec_path_blocked(p) == old(aspace).spec_path_blocked(p),
        forall|p: u64|
            valid_page(p) && !(stack_top - 4096 * pages < p <= stack_top)
                ==> #[trigger] final(aspace).spec_leaf_entry(p) == old(aspace).spec_leaf_entry(p),
        r matches Err(e) ==> e is FrameAllocationFailed || exists|k: u64|
            0 <= k < pages && {
                ||| #[trigger] old(aspace).spec_translate_page((stack_top - 4096 * k) as u64) is Some
                ||| old(aspace).spec_path_blocked((stack_top - 4096 * k) as u64)
            },
        r is Ok ==> {
            &&& final(alloc).position() - old(alloc).position() == final(aspace).table_count()
                - old(aspace).table_count() + pages
            &&& forall|k: u64|
                0 <= k < pages ==> #[trigger] final(aspace).spec_translate_page(
                    (stack_top - 4096 * k) as u64,
                ) is Some
        },
        r matches Err(MapError::FrameAllocationFailed) ==> final(alloc).position() == final(alloc).stream().len(),
{
    let mut k: u64 = 0;
    while k < pages
        invariant
            aspace.wf(),
            alloc.inv(),
            alloc.map_view() == old(alloc).map_view(),
            crate::mem::disjoint_usable(alloc.map_view()),
            aspace.fresh_frames(*alloc),
            aspace.spec_root() == old(aspace).spec_root(),
            forall|a: int| old(aspace).is_table(a) ==> aspace.is_table(a),
            preserves_mappings(*old(aspace), *aspace),
            k <= pages,
            stack_top % 4096 == 0,
            stack_top < 0x1_0000_0000_0000,
            4096 * pages <= stack_top,
            alloc.position() - old(alloc).position() == aspace.table_count() - old(aspace).table_count() + k,
            forall|p: u64|
                valid_page(p) && !(stack_top - 4096 * pages < p <= stack_top)
                    ==> #[trigger] aspace.spec_translate_page(p) == old(aspace).spec_translate_page(p),
            forall|p: u64|
                valid_page(p) ==> #[trigger] aspace.spec_path_blocked(p) == old(aspace).spec_path_blocked(p),
            forall|p: u64|
                valid_page(p) && !(stack_top - 4096 * pages < p <= stack_top)
                    ==> #[trigger] aspace.spec_leaf_entry(p) == old(aspace).spec_leaf_entry(p),
            forall|j: u64|
                0 <= j < k ==> #[trigger] aspace.spec_translate_page(
                    (stack_top - 4096 * j) as u64,
                ) is Some,
            forall|j: u64|
                k <= j < pages ==> #[trigger] aspace.spec_translate_page(
                    (stack_top - 4096 * j) as u64,
                ) == old(aspace).spec_translate_page((stack_top - 4096 * j) as u64),
        decreases pages - k,
    {
        let page = stack_top - 4096 * k;
        let ghost prev = *aspace;
        let frame = match alloc.allocate_frame() {
            Some(f) => f,
            None => {
                proof {
                    alloc.lemma_cursor_bounds();
                }
                return Err(MapError::FrameAllocationFailed);
            },
        };
        match aspace.map(
            alloc,
            page,
            frame,
            PageFlags { writable: true, user: true },
            MapPolicy::Strict,
        ) {
            Ok(_) => {},
            Err(e) => {
                proof {
                    alloc.lemma_cursor_bounds();
                    if !(e is FrameAllocationFailed) {
                        assert(prev.spec_translate_page(page) == old(aspace).spec_translate_page(
                            page,
                        ));
                        assert(old(aspace).spec_translate_page((stack_top - 4096 * k) as u64) is Some
                            || old(aspace).spec_path_blocked((stack_top - 4096 * k) as u64));
                    }
                }
                return Err(e);
            },
        }
        proof {
            lemma_preserves_mappings_trans(*old(aspace), prev, *aspace);
            assert forall|j: u64|
                0 <= j < k + 1 implies #[trigger] aspace.spec_translate_page(
                (stack_top - 4096 * j) as u64,
            ) is Some by {
                if j < k {
                    assert(prev.spec_translate_page((stack_top - 4096 * j) as u64) is Some);
                }
            }
            assert forall|j: u64|
                k + 1 <= j < pages implies #[trigger] aspace.spec_translate_page(
                (stack_top - 4096 * j) as u64,
            ) == old(aspace).spec_translate_page((stack_top - 4096 * j) as u64) by {
                assert(prev.spec_translate_page((stack_top - 4096 * j) as u64) == old(aspace).spec_translate_page((stack_top - 4096 * j) as u64));
                assert((stack_top - 4096 * j) as u64 != page);
            }
        }
        k = k + 1;
    }
    Ok(())
}

/// Identity-maps every frame from the one containing `start` through the
/// one containing `end`, inclusive, as the kernel-range mapper does.
pub fn identity_map_range(
    aspace: &mut AddressSpace,
    alloc: &mut PageTableFrameAllocator,
    start: u64,
    end: u64,
    flags: PageFlags,
    policy: MapPolicy,
) -> (r: Result<(), MapError>)
    requires
        old(aspace).wf(),
        old(alloc).inv(),
        crate::mem::disjoint_usable(old(alloc).map_view()),
        old(aspace).fresh_frames(*old(alloc)),
        start <= end,
        end < 0x1_0000_0000_0000,
    ensures
        final(aspace).wf(),
        final(alloc).inv(),
        final(alloc).map_view() == old(alloc).map_view(),
        final(aspace).spec_root() == old(aspace).spec_root(),
        final(aspace).fresh_frames(*final(alloc)),
        final(alloc).position() - old(alloc).position() == final(aspace).table_count() - old(aspace).table_count(),
        forall|a: int| old(aspace).is_table(a) ==> final(aspace).is_table(a),
        preserves_mappings(*old(aspace), *final(aspace)),
        forall|p: u64|
            valid_page(p) && !(start - start % 4096 <= p <= end - end % 4096)
                ==> #[trigger] final(aspace).spec_translate_page(p) == old(aspace).spec_translate_page(p),
        r is Ok ==> forall|p: u64|
            valid_page(p) && start - start % 4096 <= p <= end - end % 4096 ==> #[trigger] final(aspace).spec_translate_page(p) is Some,
        r is Ok && policy is Strict ==> forall|p: u64|
            valid_page(p) && start - start % 4096 <= p <= end - end % 4096 ==> #[trigger] final(aspace).spec_translate_page(p) == Some(p),
        r is Ok && policy is Strict ==> forall|p: u64|
            valid_page(p) && start - start % 4096 <= p <= end - end % 4096 ==> #[trigger] final(aspace).spec_leaf_entry(p) == Some(
                PageTableEntry {
                    present: true,
                    writable: flags.writable,
                    user: flags.user,
                    huge: false,
                    frame: p,
                },
            ),
        forall|p: u64|
            valid_page(p) ==> #[trigger] final(aspace).spec_path_blocked(p) == old(aspace).spec_path_blocked(p),
        forall|p: u64|
            valid_page(p) && !(start - start % 4096 <= p <= end - end % 4096) ==> #[trigger] final(aspace).spec_leaf_entry(p) == old(aspace).spec_leaf_entry(p),
        r matches Err(e) ==> e is FrameAllocationFailed || exists|v: u64|
            valid_page(v) && start - start % 4096 <= v <= end - end % 4096 && {
                ||| #[trigger] old(aspace).spec_translate_page(v) is Some
                ||| old(aspace).spec_path_blocked(v)
            },
        r matches Err(MapError::FrameAllocationFailed) ==> final(alloc).position() == final(alloc).stream().len(),
{
    let first = start - start % 4096;
    let last = end - end % 4096;
    let count = (last - first) / 4096 + 1;
    let mut k: u64 = 0;
    while k < count
        invariant
            aspace.wf(),
            alloc.inv(),
            alloc.map_view() == old(alloc).map_view(),
            crate::mem::disjoint_usable(alloc.map_view()),
            aspace.fresh_frames(*alloc),
            aspace.spec_root() == old(aspace).spec_root(),
            forall|a: int| old(aspace).is_table(a) ==> aspace.is_table(a),
            preserves_mappings(*old(aspace), *aspace),
            k <= count,
            first == start - start % 4096,
            last == end - end % 4096,
            first <= last < 0x1_0000_0000_0000,
            first % 4096 == 0,
            last % 4096 == 0,
            count == (last - first) / 4096 + 1,
            alloc.position() - old(alloc).position() == aspace.table_count() - old(aspace).table_count(),
            forall|p: u64|
                valid_page(p) && !(first <= p <= last) ==> #[trigger] aspace.spec_translate_page(p)
                    == old(aspace).spec_translate_page(p),
            forall|p: u64|
                valid_page(p) ==> #[trigger] aspace.spec_path_blocked(p) == old(aspace).spec_path_blocked(p),
            forall|p: u64|
                valid_page(p) && !(first <= p <= last) ==> #[trigger] aspace.spec_leaf_entry(p)
                    == old(aspace).spec_leaf_entry(p),
            forall|p: u64|
                valid_page(p) && first + 4096 * k <= p <= last
                    ==> #[trigger] aspace.spec_translate_page(p) == old(aspace).spec_translate_page(p),
            forall|p: u64|
                valid_page(p) && first <= p < first + 4096 * k
                    ==> #[trigger] aspace.spec_translate_page(p) is Some,
            policy is Strict ==> forall|p: u64|
                valid_page(p) && first <= p < first + 4096 * k
                    ==> #[trigger] aspace.spec_translate_page(p) == Some(p),
            policy is Strict ==> forall|p: u64|
                valid_page(p) && first <= p < first + 4096 * k ==> #[trigger] aspace.spec_leaf_entry(
                    p,
                ) == Some(
                    PageTableEntry {
                        present: true,
                        writable: flags.writable,
                        user: flags.user,
                        huge: false,
                        frame: p,
                    },
                ),
        decreases count - k,
    {
        let page = first + 4096 * k;
        let ghost prev = *aspace;
        match aspace.map(alloc, page, page, flags, policy) {
            Ok(_) => {},
            Err(e) => {
                proof {
                    alloc.lemma_cursor_bounds();
                    if !(e is FrameAllocationFailed) {
                        assert(prev.spec_translate_page(page) == old(aspace).spec_translate_page(
                            page,
                        ));
                        assert(old(aspace).spec_translate_page(page) is Some || old(aspace).spec_path_blocked(page));
                        assert(first <= page <= last);
                    }
                }
                return Err(e);
            },
        }
        proof {
            lemma_preserves_mappings_trans(*old(aspace), prev, *aspace);
            assert forall|p: u64| valid_page(p) && first <= p < first + 4096 * (k + 1) implies {
                &&& #[trigger] aspace.spec_translate_page(p) is Some
                &&& (policy is Strict ==> aspace.spec_translate_page(p) == Some(p))
                &&& (policy is Strict ==> aspace.spec_leaf_entry(p) == Some(
                    PageTableEntry {
                        present: true,
                        writable: flags.writable,
                        user: flags.user,
                        huge: false,
                        frame: p,
                    },
                ))
            } by {
                if p < first + 4096 * k {
                    assert(prev.spec_translate_page(p) is Some);
                    assert(aspace.spec_leaf_entry(p) == prev.spec_leaf_entry(p));
                } else {
                    assert(p == page);
                    if prev.spec_translate_page(page) is Some {
                        assert(aspace.spec_translate_page(page) == prev.spec_translate_page(page));
                    }
                }
            }
            assert forall|p: u64| valid_page(p) && first + 4096 * (k + 1) <= p <= last implies
                #[trigger] aspace.spec_translate_page(p) == old(aspace).spec_translate_page(
                p,
            ) by {
                assert(prev.spec_translate_page(p) == old(aspace).spec_translate_page(p));
                assert(p != page);
            }
        }
        k = k + 1;
    }
    proof {
        assert forall|p: u64| valid_page(p) && first <= p <= last implies p < first + 4096
            * count by {}
    }
    Ok(())
}

/// First page of a segment: its virtual address rounded down.
pub open spec fn seg_start_page(ph: ProgramHeader) -> int {
    ph.virtual_address - ph.virtual_address % 4096
}

/// Pages a loadable segment occupies: those covering
/// `[virtual_address, virtual_address + mem_size)`.
pub open spec fn seg_page_count(ph: ProgramHeader) -> int {
    (((ph.virtual_address + ph.mem_size + 4095) / 4096) * 4096 - seg_start_page(ph)) / 4096
}

/// File bytes still to copy after the first `n` pages of a segment were
/// filled: one page's worth is taken per page until at most a page
/// remains, which then repeats into every further page of the segment.
pub open spec fn remaining_after(fsize: int, n: int) -> int
    decreases n,
{
    if n <= 0 {
        fsize
    } else {
        let r = remaining_after(fsize, n - 1);
        if r > 4096 {
            r - 4096
        } else {
            r
        }
    }
}

/// How many bytes the copy into page `n` of a segment takes from the
/// file.
pub open spec fn chunk_len(fsize: int, n: int) -> int {
    if remaining_after(fsize, n) > 4096 {
        4096
    } else {
        remaining_after(fsize, n)
    }
}

/// Where in the segment's file bytes the copy into page `n` starts.
pub open spec fn chunk_off(fsize: int, n: int) -> int {
    fsize - remaining_after(fsize, n)
}

/// The remainder stays within `(0, fsize]` for a nonempty file.
pub proof fn lemma_remaining_bounds(fsize: int, n: int)
    requires
        fsize > 0,
        n >= 0,
    ensures
        0 < remaining_after(fsize, n) <= fsize,
    decreases n,
{
    if n > 0 {
        lemma_remaining_bounds(fsize, n - 1);
    }
}

/// A loadable segment the builder can place: file bytes inside the
/// buffer, no more file than memory, and pages inside the walked range.
pub open spec fn wf_load_segment(b_len: int, ph: ProgramHeader) -> bool {
    ph.spec_is_load() && ph.file_size > 0 ==> {
        &&& ph.file_offset + ph.file_size <= b_len
        &&& ph.file_size <= ph.mem_size
        &&& ph.virtual_address + ph.mem_size + 4096 < 0x1_0000_0000_0000
    }
}

/// Every record of the table is a well-formed segment.
pub open spec fn wf_image(b: Seq<u8>, hs: Seq<ProgramHeader>) -> bool {
    forall|i: int| 0 <= i < hs.len() ==> wf_load_segment(b.len() as int, #[trigger] hs[i])
}

/// Whether the builder acts on a record: only LOAD segments with file
/// bytes are populated; a pure-bss segment owns no file bytes and no
/// pages are placed for it.
pub open spec fn seg_actionable(ph: ProgramHeader) -> bool {
    ph.spec_is_load() && ph.file_size > 0
}

/// Copy actions the first `i` records contribute.
pub open spec fn pages_before(hs: Seq<ProgramHeader>, i: int) -> int
    decreases i,
{
    if i <= 0 {
        0
    } else {
        pages_before(hs, i - 1) + if seg_actionable(hs[i - 1]) {
            seg_page_count(hs[i - 1])
        } else {
            0
        }
    }
}

/// The prefix counts never shrink.
pub proof fn lemma_pages_before_monotonic(hs: Seq<ProgramHeader>, i: int, j: int)
    requires
        0 <= i <= j,
        forall|k: int| 0 <= k < hs.len() ==> seg_actionable(#[trigger] hs[k]) ==> seg_page_count(hs[k]) >= 0,
    ensures
        pages_before(hs, i) <= pages_before(hs, j),
    decreases j - i,
{
    if i < j {
        lemma_pages_before_monotonic(hs, i, j - 1);
    }
}

/// Page `p` is the `n`-th page of actionable record `i` of the table.
pub open spec fn seg_target(hs: Seq<ProgramHeader>, i: int, n: int, p: u64) -> bool {
    &&& 0 <= i < hs.len()
    &&& seg_actionable(hs[i])
    &&& 0 <= n < seg_page_count(hs[i])
    &&& p == seg_start_page(hs[i]) + 4096 * n
}

/// Page `p` belongs to some actionable segment of the table.
pub open spec fn spec_is_segment_page(hs: Seq<ProgramHeader>, p: u64) -> bool {
    exists|i: int, n: int| seg_target(hs, i, n, p)
}

/// Two distinct segment positions of the table share a page: the
/// segments overlap, so a strict mapping pass must hit a conflict.
pub open spec fn segments_overlap(hs: Seq<ProgramHeader>) -> bool {
    exists|p: u64, i1: int, n1: int, i2: int, n2: int|
        #[trigger] seg_target(hs, i1, n1, p) && #[trigger] seg_target(hs, i2, n2, p) && !(i1 == i2
            && n1 == n2)
}

/// Page `p` is the `n`-th page of LOAD record `i` of a companion
/// table; every LOAD record counts, with or without file bytes.
pub open spec fn comp_target(hs: Seq<ProgramHeader>, i: int, n: int, p: u64) -> bool {
    &&& 0 <= i < hs.len()
    &&& hs[i].spec_is_load()
    &&& 0 <= n < seg_page_count(hs[i])
    &&& p == seg_start_page(hs[i]) + 4096 * n
}

/// Page `p` belongs to some LOAD record of a companion table.
pub open spec fn spec_is_companion_page(hs: Seq<ProgramHeader>, p: u64) -> bool {
    exists|i: int, n: int| comp_target(hs, i, n, p)
}

/// Two distinct companion positions share a page.
pub open spec fn companion_pages_overlap(hs: Seq<ProgramHeader>) -> bool {
    exists|p: u64, i1: int, n1: int, i2: int, n2: int|
        #[trigger] comp_target(hs, i1, n1, p) && #[trigger] comp_target(hs, i2, n2, p) && !(i1 == i2
            && n1 == n2)
}

/// One copy action carries what the builder decided for one page of one
/// segment: which page, which fresh frame, and which file bytes land at
/// which offset inside the frame.
pub open spec fn action_matches(
    a: CopyAction,
    b: Seq<u8>,
    ph: ProgramHeader,
    n: int,
) -> bool {
    &&& a.page == seg_start_page(ph) + 4096 * n
    &&& a.offset_in_frame == ph.virtual_address % 4096
    &&& a.data@ == b.subrange(
        ph.file_offset + chunk_off(ph.file_size as int, n),
        ph.file_offset + chunk_off(ph.file_size as int, n) + chunk_len(ph.file_size as int, n),
    )
}

/// Maps and populates every LOAD segment of the image into the space:
/// for each page of each actionable segment one fresh frame is drawn,
/// the copy of its file bytes is recorded, and the frame is mapped
/// user-accessible and writable under the given conflict policy.
#[verifier::rlimit(60)]
pub fn map_segments(
    aspace: &mut AddressSpace,
    alloc: &mut PageTableFrameAllocator,
    elf: &ElfFile,
    headers: &Vec<ProgramHeader>,
    policy: MapPolicy,
) -> (r: Result<Vec<CopyAction>, MapError>)
    requires
        old(aspace).wf(),
        old(alloc).inv(),
        crate::mem::disjoint_usable(old(alloc).map_view()),
        old(aspace).fresh_frames(*old(alloc)),
        wf_image(elf.bytes(), headers@),
    ensures
        final(aspace).wf(),
        final(alloc).inv(),
        final(alloc).map_view() == old(alloc).map_view(),
        final(aspace).spec_root() == old(aspace).spec_root(),
        final(aspace).fresh_frames(*final(alloc)),
        forall|a: int| old(aspace).is_table(a) ==> final(aspace).is_table(a),
        preserves_mappings(*old(aspace), *final(aspace)),
        forall|p: u64|
            valid_page(p) ==> #[trigger] final(aspace).spec_path_blocked(p) == old(aspace).spec_path_blocked(p),
        forall|p: u64|
            valid_page(p) && !spec_is_segment_page(headers@, p) ==> #[trigger] final(aspace).spec_translate_page(p) == old(aspace).spec_translate_page(p) && final(aspace).spec_leaf_entry(p) == old(aspace).spec_leaf_entry(p),
        r matches Err(e) ==> {
            ||| e is FrameAllocationFailed
            ||| (e matches MapError::PageAlreadyMapped(_) && policy is Strict && (segments_overlap(
                headers@,
            ) || exists|p: u64|
                #[trigger] spec_is_segment_page(headers@, p) && old(aspace).spec_translate_page(
                    p,
                ) is Some))
            ||| (e is ParentEntryHugePage && exists|p: u64|
                #[trigger] spec_is_segment_page(headers@, p) && old(aspace).spec_path_blocked(p))
        },
        r matches Ok(actions) ==> policy is Strict ==> forall|k: int|
            0 <= k < actions@.len() ==> #[trigger] final(aspace).spec_leaf_entry(actions@[k].page)
                == Some(
                PageTableEntry {
                    present: true,
                    writable: true,
                    user: true,
                    huge: false,
                    frame: actions@[k].frame,
                },
            ),
        r matches Ok(actions) ==> {
            &&& actions@.len() == pages_before(headers@, headers@.len() as int)
            &&& final(alloc).position() - old(alloc).position() == final(aspace).table_count()
                - old(aspace).table_count() + actions@.len()
            &&& forall|i: int, n: int|
                0 <= i < headers@.len() && seg_actionable(#[trigger] headers@[i]) && 0 <= n
                    < seg_page_count(headers@[i]) ==> action_matches(
                    #[trigger] actions@[pages_before(headers@, i) + n],
                    elf.bytes(),
                    headers@[i],
                    n,
                )
            &&& forall|k: int|
                0 <= k < actions@.len() ==> valid_page(#[trigger] actions@[k].page) && final(aspace).spec_translate_page(actions@[k].page) is Some
        },
        r matches Err(MapError::FrameAllocationFailed) ==> final(alloc).position() == final(alloc).stream().len(),
{
    let mut actions: Vec<CopyAction> = Vec::new();
    let mut i: usize = 0;
    proof {
        assert forall|k: int|
            0 <= k < headers@.len() && seg_actionable(#[trigger] headers@[k]) implies seg_page_count(
            headers@[k],
        ) >= 1 by {
            let ph = headers@[k];
            assert(ph.virtual_address + ph.mem_size > seg_start_page(ph));
        }
    }
    while i < headers.len()
        invariant
            aspace.wf(),
            alloc.inv(),
            alloc.map_view() == old(alloc).map_view(),
            crate::mem::disjoint_usable(alloc.map_view()),
            aspace.fresh_frames(*alloc),
            aspace.spec_root() == old(aspace).spec_root(),
            forall|a: int| old(aspace).is_table(a) ==> aspace.is_table(a),
            preserves_mappings(*old(aspace), *aspace),
            wf_image(elf.bytes(), headers@),
            i <= headers@.len(),
            forall|k: int|
                0 <= k < headers@.len() && seg_actionable(#[trigger] headers@[k])
                    ==> seg_page_count(headers@[k]) >= 1,
            actions@.len() == pages_before(headers@, i as int),
            alloc.position() - old(alloc).position() == aspace.table_count() - old(aspace).table_count() + actions@.len(),
            forall|ix: int, n: int|
                0 <= ix < i && seg_actionable(#[trigger] headers@[ix]) && 0 <= n < seg_page_count(
                    headers@[ix],
                ) ==> action_matches(
                    #[trigger] actions@[pages_before(headers@, ix) + n],
                    elf.bytes(),
                    headers@[ix],
                    n,
                ),
            forall|k: int|
                0 <= k < actions@.len() ==> valid_page(#[trigger] actions@[k].page)
                    && aspace.spec_translate_page(actions@[k].page) is Some,
            forall|p: u64|
                valid_page(p) ==> #[trigger] aspace.spec_path_blocked(p) == old(aspace).spec_path_blocked(p),
            forall|p: u64|
                valid_page(p) && !spec_is_segment_page(headers@, p)
                    ==> #[trigger] aspace.spec_translate_page(p) == old(aspace).spec_translate_page(p) && aspace.spec_leaf_entry(p) == old(aspace).spec_leaf_entry(p),
            forall|p: u64|
                valid_page(p) && #[trigger] aspace.spec_translate_page(p) is Some && old(aspace).spec_translate_page(p) is None ==> exists|i2: int, n2: int|
                    #[trigger] seg_target(headers@, i2, n2, p) && i2 < i,
            policy is Strict ==> forall|k: int|
                0 <= k < actions@.len() ==> #[trigger] aspace.spec_leaf_entry(actions@[k].page)
                    == Some(
                    PageTableEntry {
                        present: true,
                        writable: true,
                        user: true,
                        huge: false,
                        frame: actions@[k].frame,
                    },
                ),
        decreases headers@.len() - i,
    {
        let ph = headers[i];
        if ph.is_load() && ph.file_size > 0 {
            let data = match elf.segment(&ph) {
                Some(d) => d,
                None => {
                    proof {
                        assert(false);
                    }
                    return Err(MapError::FrameAllocationFailed);
                },
            };
            let start_page = ph.virtual_address - ph.virtual_address % 4096;
            let end_page = (ph.virtual_address + ph.mem_size + 4095) / 4096 * 4096;
            let count = (end_page - start_page) / 4096;
            let mut remaining = ph.file_size;
            let mut n: u64 = 0;
            proof {
                assert(pages_before(headers@, i as int + 1) == pages_before(headers@, i as int)
                    + seg_page_count(ph));
            }
            while n < count
                invariant
                    aspace.wf(),
                    alloc.inv(),
                    alloc.map_view() == old(alloc).map_view(),
                    crate::mem::disjoint_usable(alloc.map_view()),
                    aspace.fresh_frames(*alloc),
                    aspace.spec_root() == old(aspace).spec_root(),
                    forall|a: int| old(aspace).is_table(a) ==> aspace.is_table(a),
                    preserves_mappings(*old(aspace), *aspace),
                    0 <= i < headers@.len(),
                    ph == headers@[i as int],
                    seg_actionable(ph),
                    wf_load_segment(elf.bytes().len() as int, ph),
                    data@ == elf.bytes().subrange(
                        ph.file_offset as int,
                        ph.file_offset + ph.file_size,
                    ),
                    start_page as int == seg_start_page(ph),
                    count as int == seg_page_count(ph),
                    start_page + 4096 * count < 0x1_0000_0000_0000,
                    start_page % 4096 == 0,
                    n <= count,
                    remaining as int == remaining_after(ph.file_size as int, n as int),
                    actions@.len() == pages_before(headers@, i as int) + n,
                    alloc.position() - old(alloc).position() == aspace.table_count() - old(aspace).table_count() + actions@.len(),
                    forall|ix: int, m: int|
                        0 <= ix < i && seg_actionable(#[trigger] headers@[ix]) && 0 <= m
                            < seg_page_count(headers@[ix]) ==> action_matches(
                            #[trigger] actions@[pages_before(headers@, ix) + m],
                            elf.bytes(),
                            headers@[ix],
                            m,
                        ),
                    forall|m: int|
                        0 <= m < n ==> action_matches(
                            #[trigger] actions@[pages_before(headers@, i as int) + m],
                            elf.bytes(),
                            ph,
                            m,
                        ),
                    forall|k: int|
                        0 <= k < actions@.len() ==> valid_page(#[trigger] actions@[k].page)
                            && aspace.spec_translate_page(actions@[k].page) is Some,
                    forall|p: u64|
                        valid_page(p) ==> #[trigger] aspace.spec_path_blocked(p) == old(aspace).spec_path_blocked(p),
                    forall|p: u64|
                        valid_page(p) && !spec_is_segment_page(headers@, p)
                            ==> #[trigger] aspace.spec_translate_page(p) == old(aspace).spec_translate_page(p) && aspace.spec_leaf_entry(p) == old(aspace).spec_leaf_entry(p),
                    forall|p: u64|
                        valid_page(p) && #[trigger] aspace.spec_translate_page(p) is Some && old(aspace).spec_translate_page(p) is None ==> exists|i2: int, n2: int|
                            #[trigger] seg_target(headers@, i2, n2, p) && (i2 < i || (i2 == i && n2
                                < n)),
                    policy is Strict ==> forall|k: int|
                        0 <= k < actions@.len() ==> #[trigger] aspace.spec_leaf_entry(
                            actions@[k].page,
                        ) == Some(
                            PageTableEntry {
                                present: true,
                                writable: true,
                                user: true,
                                huge: false,
                                frame: actions@[k].frame,
                            },
                        ),
                decreases count - n,
            {
                let page = start_page + 4096 * n;
                proof {
                    lemma_remaining_bounds(ph.file_size as int, n as int);
                }
                let chunk = if remaining > 4096 {
                    4096u64
                } else {
                    remaining
                };
                let off = ph.file_size - remaining;
                // Materializes the slice's length so its machine bound
                // is known.
                let dlen = data.len();
                proof {
                    assert(data@.len() == ph.file_size);
                    assert(off + chunk <= ph.file_size);
                }
                let chunk_data = vstd::slice::slice_to_vec(
                    vstd::slice::slice_subrange(data, off as usize, (off + chunk) as usize),
                );
                proof {
                    assert(chunk_data@ =~= elf.bytes().subrange(
                        ph.file_offset + chunk_off(ph.file_size as int, n as int),
                        ph.file_offset + chunk_off(ph.file_size as int, n as int) + chunk_len(
                            ph.file_size as int,
                            n as int,
                        ),
                    ));
                }
                let frame = match alloc.allocate_frame() {
                    Some(f) => f,
                    None => {
                        proof {
                            alloc.lemma_cursor_bounds();
                        }
                        return Err(MapError::FrameAllocationFailed);
                    },
                };
                let ghost prev = *aspace;
                match aspace.map(
                    alloc,
                    page,
                    frame,
                    PageFlags { writable: true, user: true },
                    policy,
                ) {
                    Ok(_) => {},
                    Err(MapError::PageAlreadyMapped(f)) => {
                        proof {
                            alloc.lemma_cursor_bounds();
                            // A strict conflict: the page was mapped
                            // before this pass, or two segment
                            // positions share it.
                            assert(seg_target(headers@, i as int, n as int, page));
                            assert(spec_is_segment_page(headers@, page));
                            if old(aspace).spec_translate_page(page) is None {
                                let (i2, n2) = choose|i2: int, n2: int|
                                    #[trigger] seg_target(headers@, i2, n2, page) && (i2 < i || (i2
                                        == i && n2 < n));
                                assert(seg_target(headers@, i2, n2, page));
                                assert(segments_overlap(headers@));
                            }
                        }
                        return Err(MapError::PageAlreadyMapped(f));
                    },
                    Err(e) => {
                        proof {
                            alloc.lemma_cursor_bounds();
                            assert(seg_target(headers@, i as int, n as int, page));
                            assert(spec_is_segment_page(headers@, page));
                            if e is ParentEntryHugePage {
                                assert(old(aspace).spec_path_blocked(page));
                            }
                            assert forall|p: u64|
                                valid_page(p) && !spec_is_segment_page(headers@, p) implies
                                #[trigger] aspace.spec_translate_page(p) == old(aspace).spec_translate_page(p) && aspace.spec_leaf_entry(p) == old(aspace).spec_leaf_entry(p) by {
                                assert(p != page);
                                assert(prev.spec_translate_page(p) == old(aspace).spec_translate_page(p));
                                assert(prev.spec_leaf_entry(p) == old(aspace).spec_leaf_entry(p));
                            }
                        }
                        return Err(e);
                    },
                }
                let ghost before_actions = actions@;
                let ghost new_action_view = chunk_data@;
                actions.push(
                    CopyAction {
                        page,
                        frame,
                        offset_in_frame: ph.virtual_address % 4096,
                        data: chunk_data,
                    },
                );
                proof {
                    let basei = pages_before(headers@, i as int);
                    lemma_pages_before_monotonic(headers@, 0, i as int);
                    assert(basei >= 0);
                    assert(actions@.len() == basei + n + 1);
                    assert(actions@[basei + n as int].data@ == new_action_view);
                    assert(action_matches(actions@[basei + n as int], elf.bytes(), ph, n as int));
                    assert forall|m: int| 0 <= m < n + 1 implies action_matches(
                        #[trigger] actions@[basei + m],
                        elf.bytes(),
                        ph,
                        m,
                    ) by {
                        if m < n {
                            assert(actions@[basei + m] == before_actions[basei + m]);
                            assert(action_matches(before_actions[basei + m], elf.bytes(), ph, m));
                        }
                    }
                    assert forall|ix: int, m: int|
                        0 <= ix < i && seg_actionable(#[trigger] headers@[ix]) && 0 <= m
                            < seg_page_count(headers@[ix]) implies action_matches(
                        #[trigger] actions@[pages_before(headers@, ix) + m],
                        elf.bytes(),
                        headers@[ix],
                        m,
                    ) by {
                        lemma_pages_before_monotonic(headers@, 0, ix);
                        lemma_pages_before_monotonic(headers@, ix + 1, i as int);
                        assert(pages_before(headers@, ix) + m < pages_before(headers@, ix + 1));
                        assert(actions@[pages_before(headers@, ix) + m] == before_actions[pages_before(
                            headers@,
                            ix,
                        ) + m]);
                        assert(action_matches(
                            before_actions[pages_before(headers@, ix) + m],
                            elf.bytes(),
                            headers@[ix],
                            m,
                        ));
                    }
                }
                if remaining > 4096 {
                    remaining = remaining - 4096;
                }
                proof {
                    lemma_preserves_mappings_trans(*old(aspace), prev, *aspace);
                    assert(aspace.spec_translate_page(page) is Some);
                    assert(seg_target(headers@, i as int, n as int, page));
                    assert forall|k: int|
                        0 <= k < actions@.len() implies valid_page(#[trigger] actions@[k].page)
                        && aspace.spec_translate_page(actions@[k].page) is Some by {
                        if k < actions@.len() - 1 {
                            assert(prev.spec_translate_page(actions@[k].page) is Some);
                        }
                    }
                    assert forall|p: u64|
                        valid_page(p) && !spec_is_segment_page(headers@, p) implies #[trigger] aspace.spec_translate_page(
                        p,
                    ) == old(aspace).spec_translate_page(p) && aspace.spec_leaf_entry(p) == old(aspace).spec_leaf_entry(p) by {
                        assert(p != page);
                    }
                    assert forall|p: u64|
                        valid_page(p) && #[trigger] aspace.spec_translate_page(p) is Some && old(aspace).spec_translate_page(p) is None implies exists|i2: int, n2: int|
                            #[trigger] seg_target(headers@, i2, n2, p) && (i2 < i || (i2 == i && n2
                                < n + 1)) by {
                        if p == page {
                            assert(seg_target(headers@, i as int, n as int, p));
                        } else {
                            assert(prev.spec_translate_page(p) == aspace.spec_translate_page(p));
                            let (i2, n2) = choose|i2: int, n2: int|
                                #[trigger] seg_target(headers@, i2, n2, p) && (i2 < i || (i2 == i
                                    && n2 < n));
                            assert(seg_target(headers@, i2, n2, p) && (i2 < i || (i2 == i && n2 < n
                                + 1)));
                        }
                    }
                    if policy is Strict {
                        assert(prev.spec_translate_page(page) is None);
                        assert(aspace.spec_leaf_entry(page) == Some(
                            PageTableEntry {
                                present: true,
                                writable: true,
                                user: true,
                                huge: false,
                                frame,
                            },
                        ));
                        assert forall|k: int| 0 <= k < actions@.len() implies #[trigger] aspace.spec_leaf_entry(
                            actions@[k].page,
                        ) == Some(
                            PageTableEntry {
                                present: true,
                                writable: true,
                                user: true,
                                huge: false,
                                frame: actions@[k].frame,
                            },
                        ) by {
                            if k < actions@.len() - 1 {
                                assert(prev.spec_translate_page(actions@[k].page) is Some);
                                assert(actions@[k].page != page);
                                assert(aspace.spec_leaf_entry(actions@[k].page)
                                    == prev.spec_leaf_entry(actions@[k].page));
                            }
                        }
                    }
                }
                n = n + 1;
            }
        }
        i = i + 1;
        proof {
            assert(actions@.len() == pages_before(headers@, i as int));
        }
    }
    Ok(actions)
}

/// Any page of a segment's walked range is a valid page address.
pub proof fn lemma_seg_page_valid(ph: ProgramHeader, m: int)
    requires
        ph.virtual_address + ph.mem_size + 4096 < 0x1_0000_0000_0000,
        0 <= m < seg_page_count(ph),
    ensures
        valid_page((seg_start_page(ph) + 4096 * m) as u64),
        0 <= seg_start_page(ph) + 4096 * m < 0x1_0000_0000_0000,
{
    let start = seg_start_page(ph);
    let end = ((ph.virtual_address + ph.mem_size + 4095) / 4096) * 4096;
    assert(start % 4096 == 0) by (nonlinear_arith)
        requires
            start == ph.virtual_address - ph.virtual_address % 4096,
    ;
    assert(end % 4096 == 0) by (nonlinear_arith)
        requires
            end == ((ph.virtual_address + ph.mem_size + 4095) / 4096) * 4096,
    ;
    assert(end <= ph.virtual_address + ph.mem_size + 4095) by (nonlinear_arith)
        requires
            end == ((ph.virtual_address + ph.mem_size + 4095) / 4096) * 4096,
    ;
    assert(start <= end) by (nonlinear_arith)
        requires
            start == ph.virtual_address - ph.virtual_address % 4096,
            end == ((ph.virtual_address + ph.mem_size + 4095) / 4096) * 4096,
    ;
    assert(4096 * seg_page_count(ph) == end - start) by (nonlinear_arith)
        requires
            seg_page_count(ph) == (end - start) / 4096,
            start % 4096 == 0,
            end % 4096 == 0,
            start <= end,
    ;
    assert(start + 4096 * m < end) by (nonlinear_arith)
        requires
            m < seg_page_count(ph),
            4096 * seg_page_count(ph) == end - start,
    ;
    assert((start + 4096 * m) % 4096 == 0) by (nonlinear_arith)
        requires
            start % 4096 == 0,
            0 <= m,
            0 <= start,
    ;
}

/// Maps every LOAD segment of a companion image into the space by
/// reading the frames straight out of the currently active space: the
/// pages are shared, not freshly allocated or copied.
pub fn map_companion_segments(
    aspace: &mut AddressSpace,
    alloc: &mut PageTableFrameAllocator,
    headers: &Vec<ProgramHeader>,
    current: &AddressSpace,
) -> (r: Result<(), KernelError>)
    requires
        old(aspace).wf(),
        old(alloc).inv(),
        crate::mem::disjoint_usable(old(alloc).map_view()),
        old(aspace).fresh_frames(*old(alloc)),
        current.wf(),
        forall|i: int|
            0 <= i < headers@.len() && (#[trigger] headers@[i]).spec_is_load()
                ==> headers@[i].virtual_address + headers@[i].mem_size + 4096
                < 0x1_0000_0000_0000,
    ensures
        final(aspace).wf(),
        final(alloc).inv(),
        final(alloc).map_view() == old(alloc).map_view(),
        final(aspace).spec_root() == old(aspace).spec_root(),
        final(aspace).fresh_frames(*final(alloc)),
        final(alloc).position() - old(alloc).position() == final(aspace).table_count() - old(aspace).table_count(),
        forall|a: int| old(aspace).is_table(a) ==> final(aspace).is_table(a),
        preserves_mappings(*old(aspace), *final(aspace)),
        forall|p: u64|
            valid_page(p) ==> #[trigger] final(aspace).spec_path_blocked(p) == old(aspace).spec_path_blocked(p),
        forall|p: u64|
            valid_page(p) && !spec_is_companion_page(headers@, p) ==> #[trigger] final(aspace).spec_translate_page(p) == old(aspace).spec_translate_page(p),
        r matches Err(e) ==> {
            ||| (e == KernelError::AllocationExhausted && final(alloc).position() == final(alloc).stream().len())
            ||| (e == KernelError::TranslationFailure && exists|i: int, n: int|
                #[trigger] comp_target(
                    headers@,
                    i,
                    n,
                    (seg_start_page(headers@[i]) + 4096 * n) as u64,
                ) && current.spec_translate_page(
                    (seg_start_page(headers@[i]) + 4096 * n) as u64,
                ) is None)
            ||| (e == KernelError::MappingConflict && (companion_pages_overlap(headers@)
                || exists|p: u64|
                #[trigger] spec_is_companion_page(headers@, p) && (old(aspace).spec_translate_page(p) is Some || old(aspace).spec_path_blocked(p))))
        },
        r matches Ok(_) ==> forall|i: int, n: int|
            0 <= i < headers@.len() && headers@[i].spec_is_load() && 0 <= n < seg_page_count(
                headers@[i],
            ) ==> #[trigger] final(aspace).spec_translate_page(
                (seg_start_page(headers@[i]) + 4096 * n) as u64,
            ) is Some,
{
    let mut i: usize = 0;
    while i < headers.len()
        invariant
            aspace.wf(),
            alloc.inv(),
            alloc.map_view() == old(alloc).map_view(),
            crate::mem::disjoint_usable(alloc.map_view()),
            aspace.fresh_frames(*alloc),
            aspace.spec_root() == old(aspace).spec_root(),
            alloc.position() - old(alloc).position() == aspace.table_count() - old(aspace).table_count(),
            forall|a: int| old(aspace).is_table(a) ==> aspace.is_table(a),
            preserves_mappings(*old(aspace), *aspace),
            current.wf(),
            i <= headers@.len(),
            forall|k: int|
                0 <= k < headers@.len() && (#[trigger] headers@[k]).spec_is_load()
                    ==> headers@[k].virtual_address + headers@[k].mem_size + 4096
                    < 0x1_0000_0000_0000,
            forall|ix: int, n: int|
                0 <= ix < i && headers@[ix].spec_is_load() && 0 <= n < seg_page_count(
                    headers@[ix],
                ) ==> #[trigger] aspace.spec_translate_page(
                    (seg_start_page(headers@[ix]) + 4096 * n) as u64,
                ) is Some,
            forall|p: u64|
                valid_page(p) ==> #[trigger] aspace.spec_path_blocked(p) == old(aspace).spec_path_blocked(p),
            forall|p: u64|
                valid_page(p) && !spec_is_companion_page(headers@, p)
                    ==> #[trigger] aspace.spec_translate_page(p) == old(aspace).spec_translate_page(p),
            forall|p: u64|
                valid_page(p) && #[trigger] aspace.spec_translate_page(p) is Some && old(aspace).spec_translate_page(p) is None ==> exists|i2: int, n2: int|
                    #[trigger] comp_target(headers@, i2, n2, p) && i2 < i,
        decreases headers@.len() - i,
    {
        let ph = headers[i];
        if ph.is_load() {
            let start_page = ph.virtual_address - ph.virtual_address % 4096;
            let end_page = (ph.virtual_address + ph.mem_size + 4095) / 4096 * 4096;
            let count = (end_page - start_page) / 4096;
            let mut n: u64 = 0;
            while n < count
                invariant
                    aspace.wf(),
                    alloc.inv(),
                    alloc.map_view() == old(alloc).map_view(),
                    crate::mem::disjoint_usable(alloc.map_view()),
                    aspace.fresh_frames(*alloc),
                    aspace.spec_root() == old(aspace).spec_root(),
                    alloc.position() - old(alloc).position() == aspace.table_count() - old(aspace).table_count(),
                    forall|a: int| old(aspace).is_table(a) ==> aspace.is_table(a),
                    preserves_mappings(*old(aspace), *aspace),
                    current.wf(),
                    0 <= i < headers@.len(),
                    ph == headers@[i as int],
                    ph.spec_is_load(),
                    ph.virtual_address + ph.mem_size + 4096 < 0x1_0000_0000_0000,
                    forall|k: int|
                        0 <= k < headers@.len() && (#[trigger] headers@[k]).spec_is_load()
                            ==> headers@[k].virtual_address + headers@[k].mem_size + 4096
                            < 0x1_0000_0000_0000,
                    start_page as int == seg_start_page(ph),
                    count as int == seg_page_count(ph),
                    start_page + 4096 * count < 0x1_0000_0000_0000,
                    start_page % 4096 == 0,
                    n <= count,
                    forall|ix: int, m: int|
                        0 <= ix < i && headers@[ix].spec_is_load() && 0 <= m < seg_page_count(
                            headers@[ix],
                        ) ==> #[trigger] aspace.spec_translate_page(
                            (seg_start_page(headers@[ix]) + 4096 * m) as u64,
                        ) is Some,
                    forall|m: int|
                        0 <= m < n ==> #[trigger] aspace.spec_translate_page(
                            (seg_start_page(ph) + 4096 * m) as u64,
                        ) is Some,
                    forall|p: u64|
                        valid_page(p) ==> #[trigger] aspace.spec_path_blocked(p) == old(aspace).spec_path_blocked(p),
                    forall|p: u64|
                        valid_page(p) && !spec_is_companion_page(headers@, p)
                            ==> #[trigger] aspace.spec_translate_page(p) == old(aspace).spec_translate_page(p),
                    forall|p: u64|
                        valid_page(p) && #[trigger] aspace.spec_translate_page(p) is Some && old(aspace).spec_translate_page(p) is None ==> exists|i2: int, n2: int|
                            #[trigger] comp_target(headers@, i2, n2, p) && (i2 < i || (i2 == i && n2
                                < n)),
                decreases count - n,
            {
                let page = start_page + 4096 * n;
                let frame = match current.translate_page(page) {
                    Some(f) => f,
                    None => {
                        proof {
                            assert(comp_target(headers@, i as int, n as int, page));
                        }
                        return Err(KernelError::TranslationFailure);
                    },
                };
                let ghost prev = *aspace;
                match aspace.map(
                    alloc,
                    page,
                    frame,
                    PageFlags { writable: true, user: false },
                    MapPolicy::Strict,
                ) {
                    Ok(_) => {},
                    Err(e) => {
                        proof {
                            alloc.lemma_cursor_bounds();
                            assert(comp_target(headers@, i as int, n as int, page));
                            assert(spec_is_companion_page(headers@, page));
                            if e is PageAlreadyMapped {
                                if old(aspace).spec_translate_page(page) is None {
                                    let (i2, n2) = choose|i2: int, n2: int|
                                        #[trigger] comp_target(headers@, i2, n2, page) && (i2 < i
                                            || (i2 == i && n2 < n));
                                    assert(comp_target(headers@, i2, n2, page));
                                    assert(companion_pages_overlap(headers@));
                                }
                            }
                            if e is ParentEntryHugePage {
                                assert(old(aspace).spec_path_blocked(page));
                            }
                            assert forall|p: u64|
                                valid_page(p) && !spec_is_companion_page(headers@, p) implies
                                #[trigger] aspace.spec_translate_page(p) == old(aspace).spec_translate_page(p) by {
                                assert(p != page);
                                assert(prev.spec_translate_page(p) == old(aspace).spec_translate_page(p));
                            }
                        }
                        return Err(kernel_error_of(e));
                    },
                }
                proof {
                    lemma_preserves_mappings_trans(*old(aspace), prev, *aspace);
                    assert(comp_target(headers@, i as int, n as int, page));
                    assert forall|p: u64|
                        valid_page(p) && !spec_is_companion_page(headers@, p) implies #[trigger] aspace.spec_translate_page(
                        p,
                    ) == old(aspace).spec_translate_page(p) by {
                        assert(p != page);
                        assert(prev.spec_translate_page(p) == old(aspace).spec_translate_page(p));
                    }
                    assert forall|p: u64|
                        valid_page(p) && #[trigger] aspace.spec_translate_page(p) is Some && old(aspace).spec_translate_page(p) is None implies exists|i2: int, n2: int|
                            #[trigger] comp_target(headers@, i2, n2, p) && (i2 < i || (i2 == i && n2
                                < n + 1)) by {
                        if p == page {
                            assert(comp_target(headers@, i as int, n as int, p));
                        } else {
                            assert(prev.spec_translate_page(p) == aspace.spec_translate_page(p));
                            let (i2, n2) = choose|i2: int, n2: int|
                                #[trigger] comp_target(headers@, i2, n2, p) && (i2 < i || (i2 == i
                                    && n2 < n));
                            assert(comp_target(headers@, i2, n2, p) && (i2 < i || (i2 == i && n2 < n
                                + 1)));
                        }
                    }
                    assert forall|m: int| 0 <= m < n + 1 implies #[trigger] aspace.spec_translate_page(
                        (seg_start_page(ph) + 4096 * m) as u64,
                    ) is Some by {
                        lemma_seg_page_valid(ph, m);
                        if m < n {
                            assert(prev.spec_translate_page(
                                (seg_start_page(ph) + 4096 * m) as u64,
                            ) is Some);
                        }
                    }
                    assert forall|ix: int, m: int|
                        0 <= ix < i && headers@[ix].spec_is_load() && 0 <= m < seg_page_count(
                            headers@[ix],
                        ) implies #[trigger] aspace.spec_translate_page(
                        (seg_start_page(headers@[ix]) + 4096 * m) as u64,
                    ) is Some by {
                        lemma_seg_page_valid(headers@[ix], m);
                        assert(prev.spec_translate_page(
                            (seg_start_page(headers@[ix]) + 4096 * m) as u64,
                        ) is Some);
                    }
                }
                n = n + 1;
            }
        }
        i = i + 1;
    }
    Ok(())
}

/// The error the boot path reports for each way a mapping call fails.
pub fn kernel_error_of(e: MapError) -> (r: KernelError)
    ensures
        r == match e {
            MapError::FrameAllocationFailed => KernelError::AllocationExhausted,
            MapError::PageAlreadyMapped(_) => KernelError::MappingConflict,
            MapError::ParentEntryHugePage => KernelError::MappingConflict,
        },
{
    match e {
        MapError::FrameAllocationFailed => KernelError::AllocationExhausted,
        MapError::PageAlreadyMapped(_) => KernelError::MappingConflict,
        MapError::ParentEntryHugePage => KernelError::MappingConflict,
    }
}

/// Fixed kernel ranges and layout choices one build carries into the
/// new address space. Ranges are inclusive byte extents; absent parts
/// are simply not mapped, matching the build variants of the boot path.
#[derive(Clone, Copy, Debug)]
pub struct BuildContext {
    /// Map all physical memory up to this size at the window offset.
    pub phys_mem_size: Option<u64>,
    /// Kernel code range, identity-mapped user-accessible.
    pub kernel_code: Option<(u64, u64)>,
    /// Kernel stack range, identity-mapped kernel-only.
    pub kernel_stack: Option<(u64, u64)>,
    /// Hardware-register page, identity-mapped kernel-only.
    pub mmio_page: Option<u64>,
    /// Top of the process stack region.
    pub stack_top: u64,
    /// Pages of process stack mapped downward from the top.
    pub stack_pages: u64,
    /// Conflict policy for the primary image's segment mapping.
    pub policy: MapPolicy,
}

impl BuildContext {
    /// Machine-level sanity of the requested layout.
    pub open spec fn wf(self) -> bool {
        &&& self.stack_top % 4096 == 0
        &&& self.stack_top < 0x1_0000_0000_0000
        &&& 4096 * self.stack_pages <= self.stack_top
        &&& match self.phys_mem_size {
            Option::Some(sz) => crate::memory_regions::PAGE_TABLE_OFFSET + (sz / 0x4000_0000 + 1)
                * 0x4000_0000 <= 0x1_0000_0000_0000,
            Option::None => true,
        }
        &&& match self.kernel_code {
            Option::Some((s, e)) => s <= e < 0x1_0000_0000_0000,
            Option::None => true,
        }
        &&& match self.kernel_stack {
            Option::Some((s, e)) => s <= e < 0x1_0000_0000_0000,
            Option::None => true,
        }
        &&& match self.mmio_page {
            Option::Some(a) => a < 0x1_0000_0000_0000,
            Option::None => true,
        }
    }
}

/// Page `p` lies in the physical-memory window the context asks for.
pub open spec fn in_window(ctx: BuildContext, p: u64) -> bool {
    match ctx.phys_mem_size {
        Option::Some(sz) => crate::memory_regions::PAGE_TABLE_OFFSET <= p
            < crate::memory_regions::PAGE_TABLE_OFFSET + (sz / 0x4000_0000 + 1) * 0x4000_0000,
        Option::None => false,
    }
}

/// Page `p` is one of the context's process-stack pages.
pub open spec fn in_stack(ctx: BuildContext, p: u64) -> bool {
    ctx.stack_top - 4096 * ctx.stack_pages < p <= ctx.stack_top
}

/// Page `p` is one of the kernel-code identity pages.
pub open spec fn in_code(ctx: BuildContext, p: u64) -> bool {
    match ctx.kernel_code {
        Option::Some((cs, ce)) => cs - cs % 4096 <= p <= ce - ce % 4096,
        Option::None => false,
    }
}

/// Page `p` is one of the kernel-stack identity pages.
pub open spec fn in_kstack(ctx: BuildContext, p: u64) -> bool {
    match ctx.kernel_stack {
        Option::Some((ks, ke)) => ks - ks % 4096 <= p <= ke - ke % 4096,
        Option::None => false,
    }
}

/// Page `p` is the hardware-register identity page.
pub open spec fn in_mmio(ctx: BuildContext, p: u64) -> bool {
    match ctx.mmio_page {
        Option::Some(a) => p == a - a % 4096,
        Option::None => false,
    }
}

/// The build's target page sets do not collide: each fixed range keeps
/// out of the ones placed before it, and the image's segment pages keep
/// out of every fixed range. A collision among these is fatal in the
/// boot path, so a build is only asked for on a separated layout.
pub open spec fn build_targets_separated(ctx: BuildContext, hs: Seq<ProgramHeader>) -> bool {
    forall|p: u64|
        #![trigger in_stack(ctx, p)]
        #![trigger in_code(ctx, p)]
        #![trigger in_kstack(ctx, p)]
        #![trigger in_mmio(ctx, p)]
        #![trigger spec_is_segment_page(hs, p)]
        valid_page(p) ==> {
            &&& (in_stack(ctx, p) ==> !in_window(ctx, p))
            &&& (in_code(ctx, p) ==> !in_window(ctx, p) && !in_stack(ctx, p))
            &&& (in_kstack(ctx, p) ==> !in_window(ctx, p) && !in_stack(ctx, p) && !in_code(ctx, p))
            &&& (in_mmio(ctx, p) ==> !in_window(ctx, p) && !in_stack(ctx, p) && !in_code(ctx, p)
                && !in_kstack(ctx, p))
            &&& (spec_is_segment_page(hs, p) ==> !in_window(ctx, p) && !in_stack(ctx, p)
                && !in_code(ctx, p) && !in_kstack(ctx, p) && !in_mmio(ctx, p))
        }
}

/// A companion image's pages keep out of the build's other targets and
/// never repeat; a collision there is fatal in the boot path.
pub open spec fn companion_separated(
    ctx: BuildContext,
    comp: Seq<ProgramHeader>,
    hs: Seq<ProgramHeader>,
) -> bool {
    &&& forall|p: u64|
        valid_page(p) && #[trigger] spec_is_companion_page(comp, p) ==> !in_window(ctx, p)
            && !in_stack(ctx, p) && !in_kstack(ctx, p) && !spec_is_segment_page(hs, p)
    &&& !companion_pages_overlap(comp)
}

/// The program-header table as the records stand in the buffer.
pub open spec fn spec_headers(b: Seq<u8>) -> Seq<ProgramHeader> {
    Seq::new(
        crate::elf::spec_header(b).prg_entry_count as nat,
        |j: int|
            crate::elf::spec_program_header(
                b,
                crate::elf::spec_header(b).prg_header_tbl + 56 * j,
            ),
    )
}

/// A process: an identifier from the monotonically increasing counter,
/// its own address space, its stack top and its declared entry address.
/// It lives for the rest of the kernel's runtime; nothing tears it down.
pub struct Process {
    pub id: u32,
    pub address_space: AddressSpace,
    pub stack_base: u64,
    pub entry: u64,
}

impl Process {
    /// The page range of the reserved process stack region: from one
    /// megabyte below the top up to the top, inclusive.
    pub fn get_stack() -> (r: (u64, u64))
        ensures
            r.0 == crate::memory_regions::PROCESS_STACK_ADDRESS
                - crate::memory_regions::PROCESS_STACK_BYTES,
            r.1 == crate::memory_regions::PROCESS_STACK_ADDRESS,
    {
        (
            crate::memory_regions::PROCESS_STACK_ADDRESS
                - crate::memory_regions::PROCESS_STACK_BYTES,
            crate::memory_regions::PROCESS_STACK_ADDRESS,
        )
    }

    /// Builds a process from an executable image alone: fresh address
    /// space, physical-memory window, process stack, fixed kernel
    /// ranges, then every LOAD segment mapped and scheduled for copy.
    #[verifier::rlimit(100)]
    pub fn kernel_from_elf(
        elf: &ElfFile,
        ctx: &BuildContext,
        alloc: &mut PageTableFrameAllocator,
        counter: &mut u32,
    ) -> (r: Result<(Process, Vec<CopyAction>), KernelError>)
        requires
            old(alloc).inv(),
            crate::mem::disjoint_usable(old(alloc).map_view()),
            ctx.wf(),
            ElfFile::spec_well_formed(elf.bytes()),
            wf_image(elf.bytes(), spec_headers(elf.bytes())),
            build_targets_separated(*ctx, spec_headers(elf.bytes())),
        ensures
            final(alloc).inv(),
            final(alloc).map_view() == old(alloc).map_view(),
            r matches Err(e) ==> {
                ||| (e == KernelError::AllocationExhausted && final(alloc).position() == final(alloc).stream().len())
                ||| (e == KernelError::MappingConflict && ctx.policy is Strict && segments_overlap(
                    spec_headers(elf.bytes()),
                ))
            },
            r matches Ok(pr) ==> forall|p: u64|
                valid_page(p) && !in_window(*ctx, p) && !in_stack(*ctx, p) && !in_code(*ctx, p)
                    && !in_kstack(*ctx, p) && !in_mmio(*ctx, p) && !spec_is_segment_page(
                    spec_headers(elf.bytes()),
                    p,
                ) ==> #[trigger] pr.0.address_space.spec_translate_page(p) is None,
            r matches Ok(pr) ==> {
                &&& pr.0.address_space.wf()
                &&& pr.0.entry == crate::elf::spec_header(elf.bytes()).entry
                &&& pr.0.stack_base == ctx.stack_top
                &&& pr.0.id == *old(counter)
                &&& *final(counter) == (*old(counter)).wrapping_add(1)
                &&& pr.0.address_space.spec_root() as int == old(alloc).stream()[old(alloc).position()]
                &&& pr.0.address_space.table_count() >= 1
                &&& final(alloc).position() > old(alloc).position()
                &&& final(alloc).position() - old(alloc).position()
                    == pr.0.address_space.table_count() + ctx.stack_pages + pr.1@.len()
                &&& pr.1@.len() == pages_before(
                    spec_headers(elf.bytes()),
                    spec_headers(elf.bytes()).len() as int,
                )
                &&& forall|i: int, n: int|
                    0 <= i < spec_headers(elf.bytes()).len() && seg_actionable(
                        #[trigger] spec_headers(elf.bytes())[i],
                    ) && 0 <= n < seg_page_count(spec_headers(elf.bytes())[i]) ==> action_matches(
                        #[trigger] pr.1@[pages_before(spec_headers(elf.bytes()), i) + n],
                        elf.bytes(),
                        spec_headers(elf.bytes())[i],
                        n,
                    )
                &&& forall|k: int|
                    0 <= k < pr.1@.len() ==> valid_page(#[trigger] pr.1@[k].page)
                        && pr.0.address_space.spec_translate_page(pr.1@[k].page) is Some
                &&& forall|k: u64|
                    0 <= k < ctx.stack_pages
                        ==> #[trigger] pr.0.address_space.spec_translate_page(
                        (ctx.stack_top - 4096 * k) as u64,
                    ) is Some
            },
    {
        let mut aspace = match AddressSpace::new_address_space(alloc) {
            Ok(a) => a,
            Err(_) => {
                proof {
                    alloc.lemma_cursor_bounds();
                }
                return Err(KernelError::AllocationExhausted);
            },
        };
        let ghost pos0 = old(alloc).position();
        let ghost hs = spec_headers(elf.bytes());
        let ghost fresh_space = aspace;
        proof {
            old(alloc).lemma_cursor_bounds();
            assert forall|x: int|
                alloc.position() <= x < alloc.stream().len() implies !aspace.is_table(
                #[trigger] alloc.stream()[x],
            ) by {
                crate::mem::lemma_frame_stream_injective(old(alloc).map_view(), pos0, x);
            }
        }
        if let Some(sz) = ctx.phys_mem_size {
            match map_physical_window(&mut aspace, alloc, sz) {
                Ok(_) => {},
                Err(e) => {
                    proof {
                        alloc.lemma_cursor_bounds();
                        // A fresh space has no occupied huge slots, so
                        // the window pass can only want for frames.
                        if !(e is FrameAllocationFailed) {
                            assert(false);
                        }
                    }
                    return Err(kernel_error_of(e));
                },
            }
        }
        let ghost s1 = aspace;
        proof {
            // Outside the window nothing is mapped or blocked yet.
            assert forall|p: u64| valid_page(p) && !in_window(*ctx, p) implies s1.spec_translate_page(
                p,
            ) is None && !s1.spec_path_blocked(p) by {
                if ctx.phys_mem_size is Some {
                    assert(fresh_space.spec_translate_page(p) is None);
                    assert(!fresh_space.spec_path_blocked(p));
                } else {
                    assert(s1 == fresh_space);
                }
            }
        }
        match map_stack(&mut aspace, alloc, ctx.stack_top, ctx.stack_pages) {
            Ok(_) => {},
            Err(e) => {
                proof {
                    alloc.lemma_cursor_bounds();
                    // Every stack page is still clear, so the stack
                    // pass too can only want for frames.
                    if !(e is FrameAllocationFailed) {
                        let k = choose|k: u64|
                            0 <= k < ctx.stack_pages && (#[trigger] s1.spec_translate_page(
                                (ctx.stack_top - 4096 * k) as u64,
                            ) is Some || s1.spec_path_blocked((ctx.stack_top - 4096 * k) as u64));
                        let t = (ctx.stack_top - 4096 * k) as u64;
                        assert(t % 4096 == 0) by (nonlinear_arith)
                            requires
                                ctx.stack_top % 4096 == 0,
                                t == ctx.stack_top - 4096 * k,
                                0 <= k,
                                4096 * k <= ctx.stack_top,
                        ;
                        assert(valid_page(t));
                        assert(in_stack(*ctx, t));
                        assert(!in_window(*ctx, t));
                        assert(false);
                    }
                }
                return Err(kernel_error_of(e));
            },
        }
        let ghost after_stack = aspace;
        let ghost s2 = aspace;
        proof {
            assert forall|p: u64|
                valid_page(p) && !in_window(*ctx, p) && !in_stack(*ctx, p) implies s2.spec_translate_page(
                p,
            ) is None && !s2.spec_path_blocked(p) by {
                assert(s1.spec_translate_page(p) is None && !s1.spec_path_blocked(p));
                assert(s2.spec_translate_page(p) == s1.spec_translate_page(p));
                assert(s2.spec_path_blocked(p) == s1.spec_path_blocked(p));
            }
        }
        if let Some((cs, ce)) = ctx.kernel_code {
            match identity_map_range(
                &mut aspace,
                alloc,
                cs,
                ce,
                PageFlags { writable: true, user: true },
                MapPolicy::Strict,
            ) {
                Ok(_) => {},
                Err(e) => {
                    proof {
                        alloc.lemma_cursor_bounds();
                        if !(e is FrameAllocationFailed) {
                            let v = choose|v: u64|
                                valid_page(v) && cs - cs % 4096 <= v <= ce - ce % 4096 && (
                                #[trigger] s2.spec_translate_page(v) is Some
                                    || s2.spec_path_blocked(v));
                            assert(in_code(*ctx, v));
                            assert(false);
                        }
                    }
                    return Err(kernel_error_of(e));
                },
            }
        }
        let ghost s3 = aspace;
        proof {
            assert forall|p: u64|
                valid_page(p) && !in_window(*ctx, p) && !in_stack(*ctx, p) && !in_code(
                    *ctx,
                    p,
                ) implies s3.spec_translate_page(p) is None && !s3.spec_path_blocked(p) by {
                assert(s2.spec_translate_page(p) is None && !s2.spec_path_blocked(p));
                if ctx.kernel_code is Some {
                    assert(s3.spec_translate_page(p) == s2.spec_translate_page(p));
                    assert(s3.spec_path_blocked(p) == s2.spec_path_blocked(p));
                } else {
                    assert(s3 == s2);
                }
            }
        }
        if let Some((ks, ke)) = ctx.kernel_stack {
            match identity_map_range(
                &mut aspace,
                alloc,
                ks,
                ke,
                PageFlags { writable: true, user: false },
                MapPolicy::Strict,
            ) {
                Ok(_) => {},
                Err(e) => {
                    proof {
                        alloc.lemma_cursor_bounds();
                        if !(e is FrameAllocationFailed) {
                            let v = choose|v: u64|
                                valid_page(v) && ks - ks % 4096 <= v <= ke - ke % 4096 && (
                                #[trigger] s3.spec_translate_page(v) is Some
                                    || s3.spec_path_blocked(v));
                            assert(in_kstack(*ctx, v));
                            assert(false);
                        }
                    }
                    return Err(kernel_error_of(e));
                },
            }
        }
        let ghost s4 = aspace;
        proof {
            assert forall|p: u64|
                valid_page(p) && !in_window(*ctx, p) && !in_stack(*ctx, p) && !in_code(*ctx, p)
                    && !in_kstack(*ctx, p) implies s4.spec_translate_page(p) is None
                && !s4.spec_path_blocked(p) by {
                assert(s3.spec_translate_page(p) is None && !s3.spec_path_blocked(p));
                if ctx.kernel_stack is Some {
                    assert(s4.spec_translate_page(p) == s3.spec_translate_page(p));
                    assert(s4.spec_path_blocked(p) == s3.spec_path_blocked(p));
                } else {
                    assert(s4 == s3);
                }
            }
        }
        if let Some(a) = ctx.mmio_page {
            match identity_map_range(
                &mut aspace,
                alloc,
                a,
                a,
                PageFlags { writable: true, user: false },
                MapPolicy::Strict,
            ) {
                Ok(_) => {},
                Err(e) => {
                    proof {
                        alloc.lemma_cursor_bounds();
                        if !(e is FrameAllocationFailed) {
                            let v = choose|v: u64|
                                valid_page(v) && a - a % 4096 <= v <= a - a % 4096 && (
                                #[trigger] s4.spec_translate_page(v) is Some
                                    || s4.spec_path_blocked(v));
                            assert(in_mmio(*ctx, v));
                            assert(false);
                        }
                    }
                    return Err(kernel_error_of(e));
                },
            }
        }
        let ghost s5 = aspace;
        proof {
            assert forall|p: u64|
                valid_page(p) && !in_window(*ctx, p) && !in_stack(*ctx, p) && !in_code(*ctx, p)
                    && !in_kstack(*ctx, p) && !in_mmio(*ctx, p) implies s5.spec_translate_page(p) is None
                && !s5.spec_path_blocked(p) by {
                assert(s4.spec_translate_page(p) is None && !s4.spec_path_blocked(p));
                if ctx.mmio_page is Some {
                    assert(s5.spec_translate_page(p) == s4.spec_translate_page(p));
                    assert(s5.spec_path_blocked(p) == s4.spec_path_blocked(p));
                } else {
                    assert(s5 == s4);
                }
            }
        }
        let ghost before_segs = aspace;
        let header = match elf.header() {
            Ok(h) => h,
            Err(e) => {
                return Err(e);
            },
        };
        let headers = match elf.program_headers() {
            Ok(h) => h,
            Err(e) => {
                return Err(e);
            },
        };
        proof {
            assert(headers@ =~= spec_headers(elf.bytes()));
        }
        let actions = match map_segments(&mut aspace, alloc, elf, &headers, ctx.policy) {
            Ok(a) => a,
            Err(e) => {
                proof {
                    alloc.lemma_cursor_bounds();
                    // A conflict in the segment pass can only come from
                    // the segments themselves: every segment page was
                    // clear and unblocked when the pass began.
                    if e is ParentEntryHugePage {
                        let q = choose|q: u64|
                            #[trigger] spec_is_segment_page(headers@, q)
                                && s5.spec_path_blocked(q);
                        let (qi, qn) = choose|qi: int, qn: int| seg_target(headers@, qi, qn, q);
                        lemma_seg_page_valid(headers@[qi], qn);
                        assert(spec_is_segment_page(hs, q));
                        assert(false);
                    }
                    if e is PageAlreadyMapped && !segments_overlap(headers@) {
                        let q = choose|q: u64|
                            #[trigger] spec_is_segment_page(headers@, q)
                                && s5.spec_translate_page(q) is Some;
                        let (qi, qn) = choose|qi: int, qn: int| seg_target(headers@, qi, qn, q);
                        lemma_seg_page_valid(headers@[qi], qn);
                        assert(spec_is_segment_page(hs, q));
                        assert(false);
                    }
                }
                return Err(kernel_error_of(e));
            },
        };
        let id = *counter;
        *counter = counter.wrapping_add(1);
        proof {
            crate::paging::lemma_is_table_count(aspace, aspace.spec_root() as int);
            lemma_preserves_mappings_trans(after_stack, before_segs, aspace);
            assert forall|k: u64| 0 <= k < ctx.stack_pages implies #[trigger] aspace.spec_translate_page(
                (ctx.stack_top - 4096 * k) as u64,
            ) is Some by {
                assert(after_stack.spec_translate_page((ctx.stack_top - 4096 * k) as u64) is Some);
            }
            // Completeness: nothing outside the build's targets is
            // mapped.
            assert forall|p: u64|
                valid_page(p) && !in_window(*ctx, p) && !in_stack(*ctx, p) && !in_code(*ctx, p)
                    && !in_kstack(*ctx, p) && !in_mmio(*ctx, p) && !spec_is_segment_page(
                    hs,
                    p,
                ) implies #[trigger] aspace.spec_translate_page(p) is None by {
                assert(s5.spec_translate_page(p) is None);
                assert(aspace.spec_translate_page(p) == s5.spec_translate_page(p));
            }
        }
        Ok(
            (
                Process {
                    id,
                    address_space: aspace,
                    stack_base: ctx.stack_top,
                    entry: header.entry,
                },
                actions,
            ),
        )
    }
}

impl Process {
    /// Builds a process from a primary image together with a companion
    /// kernel image whose LOAD segments are mapped read-through from the
    /// currently active address space rather than freshly allocated.
    #[verifier::rlimit(100)]
    pub fn from_elf(
        elf: &ElfFile,
        kernel: &ElfFile,
        ctx: &BuildContext,
        current: &AddressSpace,
        alloc: &mut PageTableFrameAllocator,
        counter: &mut u32,
    ) -> (r: Result<(Process, Vec<CopyAction>), KernelError>)
        requires
            old(alloc).inv(),
            crate::mem::disjoint_usable(old(alloc).map_view()),
            ctx.wf(),
            current.wf(),
            ElfFile::spec_well_formed(elf.bytes()),
            wf_image(elf.bytes(), spec_headers(elf.bytes())),
            ElfFile::spec_well_formed(kernel.bytes()),
            forall|i: int|
                0 <= i < spec_headers(kernel.bytes()).len() && (#[trigger] spec_headers(
                    kernel.bytes(),
                )[i]).spec_is_load() ==> spec_headers(kernel.bytes())[i].virtual_address
                    + spec_headers(kernel.bytes())[i].mem_size + 4096 < 0x1_0000_0000_0000,
            build_targets_separated(*ctx, spec_headers(elf.bytes())),
            companion_separated(*ctx, spec_headers(kernel.bytes()), spec_headers(elf.bytes())),
        ensures
            final(alloc).inv(),
            final(alloc).map_view() == old(alloc).map_view(),
            r matches Err(e) ==> {
                ||| (e == KernelError::AllocationExhausted && final(alloc).position() == final(alloc).stream().len())
                ||| (e == KernelError::TranslationFailure && exists|i: int, n: int|
                    #[trigger] comp_target(
                        spec_headers(kernel.bytes()),
                        i,
                        n,
                        (seg_start_page(spec_headers(kernel.bytes())[i]) + 4096 * n) as u64,
                    ) && current.spec_translate_page(
                        (seg_start_page(spec_headers(kernel.bytes())[i]) + 4096 * n) as u64,
                    ) is None)
                ||| (e == KernelError::MappingConflict && ctx.policy is Strict && segments_overlap(
                    spec_headers(elf.bytes()),
                ))
            },
            r matches Ok(pr) ==> forall|p: u64|
                valid_page(p) && !in_window(*ctx, p) && !in_stack(*ctx, p) && !in_kstack(*ctx, p)
                    && !spec_is_companion_page(spec_headers(kernel.bytes()), p)
                    && !spec_is_segment_page(spec_headers(elf.bytes()), p)
                    ==> #[trigger] pr.0.address_space.spec_translate_page(p) is None,
            r matches Ok(pr) ==> {
                &&& pr.0.address_space.wf()
                &&& pr.0.entry == crate::elf::spec_header(elf.bytes()).entry
                &&& pr.0.stack_base == ctx.stack_top
                &&& pr.0.id == *old(counter)
                &&& *final(counter) == (*old(counter)).wrapping_add(1)
                &&& pr.0.address_space.spec_root() as int == old(alloc).stream()[old(alloc).position()]
                &&& pr.0.address_space.table_count() >= 1
                &&& final(alloc).position() > old(alloc).position()
                &&& pr.1@.len() == pages_before(
                    spec_headers(elf.bytes()),
                    spec_headers(elf.bytes()).len() as int,
                )
                &&& forall|i: int, n: int|
                    0 <= i < spec_headers(elf.bytes()).len() && seg_actionable(
                        #[trigger] spec_headers(elf.bytes())[i],
                    ) && 0 <= n < seg_page_count(spec_headers(elf.bytes())[i]) ==> action_matches(
                        #[trigger] pr.1@[pages_before(spec_headers(elf.bytes()), i) + n],
                        elf.bytes(),
                        spec_headers(elf.bytes())[i],
                        n,
                    )
                &&& forall|k: int|
                    0 <= k < pr.1@.len() ==> valid_page(#[trigger] pr.1@[k].page)
                        && pr.0.address_space.spec_translate_page(pr.1@[k].page) is Some
                &&& forall|k: u64|
                    0 <= k < ctx.stack_pages
                        ==> #[trigger] pr.0.address_space.spec_translate_page(
                        (ctx.stack_top - 4096 * k) as u64,
                    ) is Some
            },
    {
        let mut aspace = match AddressSpace::new_address_space(alloc) {
            Ok(a) => a,
            Err(_) => {
                proof {
                    alloc.lemma_cursor_bounds();
                }
                return Err(KernelError::AllocationExhausted);
            },
        };
        let ghost pos0 = old(alloc).position();
        let ghost hs = spec_headers(elf.bytes());
        let ghost comp_hs = spec_headers(kernel.bytes());
        let ghost fresh_space = aspace;
        proof {
            old(alloc).lemma_cursor_bounds();
            assert forall|x: int|
                alloc.position() <= x < alloc.stream().len() implies !aspace.is_table(
                #[trigger] alloc.stream()[x],
            ) by {
                crate::mem::lemma_frame_stream_injective(old(alloc).map_view(), pos0, x);
            }
        }
        if let Some(sz) = ctx.phys_mem_size {
            match map_physical_window(&mut aspace, alloc, sz) {
                Ok(_) => {},
                Err(e) => {
                    proof {
                        alloc.lemma_cursor_bounds();
                        if !(e is FrameAllocationFailed) {
                            assert(false);
                        }
                    }
                    return Err(kernel_error_of(e));
                },
            }
        }
        let ghost s1 = aspace;
        proof {
            assert forall|p: u64| valid_page(p) && !in_window(*ctx, p) implies s1.spec_translate_page(
                p,
            ) is None && !s1.spec_path_blocked(p) by {
                if ctx.phys_mem_size is Some {
                    assert(fresh_space.spec_translate_page(p) is None);
                    assert(!fresh_space.spec_path_blocked(p));
                } else {
                    assert(s1 == fresh_space);
                }
            }
        }
        match map_stack(&mut aspace, alloc, ctx.stack_top, ctx.stack_pages) {
            Ok(_) => {},
            Err(e) => {
                proof {
                    alloc.lemma_cursor_bounds();
                    if !(e is FrameAllocationFailed) {
                        let k = choose|k: u64|
                            0 <= k < ctx.stack_pages && (#[trigger] s1.spec_translate_page(
                                (ctx.stack_top - 4096 * k) as u64,
                            ) is Some || s1.spec_path_blocked((ctx.stack_top - 4096 * k) as u64));
                        let t = (ctx.stack_top - 4096 * k) as u64;
                        assert(t % 4096 == 0) by (nonlinear_arith)
                            requires
                                ctx.stack_top % 4096 == 0,
                                t == ctx.stack_top - 4096 * k,
                                0 <= k,
                                4096 * k <= ctx.stack_top,
                        ;
                        assert(valid_page(t));
                        assert(in_stack(*ctx, t));
                        assert(false);
                    }
                }
                return Err(kernel_error_of(e));
            },
        }
        let ghost after_stack = aspace;
        let ghost s2 = aspace;
        proof {
            assert forall|p: u64|
                valid_page(p) && !in_window(*ctx, p) && !in_stack(*ctx, p) implies s2.spec_translate_page(
                p,
            ) is None && !s2.spec_path_blocked(p) by {
                assert(s1.spec_translate_page(p) is None && !s1.spec_path_blocked(p));
                assert(s2.spec_translate_page(p) == s1.spec_translate_page(p));
                assert(s2.spec_path_blocked(p) == s1.spec_path_blocked(p));
            }
        }
        if let Some((ks, ke)) = ctx.kernel_stack {
            match identity_map_range(
                &mut aspace,
                alloc,
                ks,
                ke,
                PageFlags { writable: true, user: false },
                MapPolicy::Strict,
            ) {
                Ok(_) => {},
                Err(e) => {
                    proof {
                        alloc.lemma_cursor_bounds();
                        if !(e is FrameAllocationFailed) {
                            let v = choose|v: u64|
                                valid_page(v) && ks - ks % 4096 <= v <= ke - ke % 4096 && (
                                #[trigger] s2.spec_translate_page(v) is Some
                                    || s2.spec_path_blocked(v));
                            assert(in_kstack(*ctx, v));
                            assert(false);
                        }
                    }
                    return Err(kernel_error_of(e));
                },
            }
        }
        let ghost s3 = aspace;
        proof {
            assert forall|p: u64|
                valid_page(p) && !in_window(*ctx, p) && !in_stack(*ctx, p) && !in_kstack(
                    *ctx,
                    p,
                ) implies s3.spec_translate_page(p) is None && !s3.spec_path_blocked(p) by {
                assert(s2.spec_translate_page(p) is None && !s2.spec_path_blocked(p));
                if ctx.kernel_stack is Some {
                    assert(s3.spec_translate_page(p) == s2.spec_translate_page(p));
                    assert(s3.spec_path_blocked(p) == s2.spec_path_blocked(p));
                } else {
                    assert(s3 == s2);
                }
            }
        }
        let kernel_headers = match kernel.program_headers() {
            Ok(h) => h,
            Err(e) => {
                return Err(e);
            },
        };
        proof {
            assert(kernel_headers@ =~= spec_headers(kernel.bytes()));
        }
        match map_companion_segments(&mut aspace, alloc, &kernel_headers, current) {
            Ok(_) => {},
            Err(e) => {
                proof {
                    alloc.lemma_cursor_bounds();
                    // The companion pages were all clear and distinct,
                    // so only a missing source translation or an empty
                    // allocator can stop this pass.
                    if e == KernelError::MappingConflict {
                        if !companion_pages_overlap(kernel_headers@) {
                            let q = choose|q: u64|
                                #[trigger] spec_is_companion_page(kernel_headers@, q) && (
                                s3.spec_translate_page(q) is Some || s3.spec_path_blocked(q));
                            let (qi, qn) = choose|qi: int, qn: int|
                                comp_target(kernel_headers@, qi, qn, q);
                            lemma_seg_page_valid(kernel_headers@[qi], qn);
                            assert(spec_is_companion_page(comp_hs, q));
                            assert(false);
                        }
                        assert(false);
                    }
                }
                return Err(e);
            },
        }
        let ghost before_segs = aspace;
        let ghost s4 = aspace;
        proof {
            assert forall|p: u64|
                valid_page(p) && !in_window(*ctx, p) && !in_stack(*ctx, p) && !in_kstack(*ctx, p)
                    && !spec_is_companion_page(comp_hs, p) implies s4.spec_translate_page(p) is None
                && !s4.spec_path_blocked(p) by {
                assert(s3.spec_translate_page(p) is None && !s3.spec_path_blocked(p));
                assert(s4.spec_translate_page(p) == s3.spec_translate_page(p));
                assert(s4.spec_path_blocked(p) == s3.spec_path_blocked(p));
            }
        }
        let header = match elf.header() {
            Ok(h) => h,
            Err(e) => {
                return Err(e);
            },
        };
        let headers = match elf.program_headers() {
            Ok(h) => h,
            Err(e) => {
                return Err(e);
            },
        };
        proof {
            assert(headers@ =~= spec_headers(elf.bytes()));
        }
        let actions = match map_segments(&mut aspace, alloc, elf, &headers, ctx.policy) {
            Ok(a) => a,
            Err(e) => {
                proof {
                    alloc.lemma_cursor_bounds();
                    if e is ParentEntryHugePage {
                        let q = choose|q: u64|
                            #[trigger] spec_is_segment_page(headers@, q)
                                && s4.spec_path_blocked(q);
                        let (qi, qn) = choose|qi: int, qn: int| seg_target(headers@, qi, qn, q);
                        lemma_seg_page_valid(headers@[qi], qn);
                        assert(spec_is_segment_page(hs, q));
                        assert(false);
                    }
                    if e is PageAlreadyMapped && !segments_overlap(headers@) {
                        let q = choose|q: u64|
                            #[trigger] spec_is_segment_page(headers@, q)
                                && s4.spec_translate_page(q) is Some;
                        let (qi, qn) = choose|qi: int, qn: int| seg_target(headers@, qi, qn, q);
                        lemma_seg_page_valid(headers@[qi], qn);
                        assert(spec_is_segment_page(hs, q));
                        assert(false);
                    }
                }
                return Err(kernel_error_of(e));
            },
        };
        let id = *counter;
        *counter = counter.wrapping_add(1);
        proof {
            crate::paging::lemma_is_table_count(aspace, aspace.spec_root() as int);
            lemma_preserves_mappings_trans(after_stack, before_segs, aspace);
            assert forall|k: u64| 0 <= k < ctx.stack_pages implies #[trigger] aspace.spec_translate_page(
                (ctx.stack_top - 4096 * k) as u64,
            ) is Some by {
                assert(after_stack.spec_translate_page((ctx.stack_top - 4096 * k) as u64) is Some);
            }
            // Completeness: nothing outside the build's targets is
            // mapped.
            assert forall|p: u64|
                valid_page(p) && !in_window(*ctx, p) && !in_stack(*ctx, p) && !in_kstack(*ctx, p)
                    && !spec_is_companion_page(comp_hs, p) && !spec_is_segment_page(
                    hs,
                    p,
                ) implies #[trigger] aspace.spec_translate_page(p) is None by {
                assert(s4.spec_translate_page(p) is None);
                assert(aspace.spec_translate_page(p) == s4.spec_translate_page(p));
            }
        }
        Ok(
            (
                Process {
                    id,
                    address_space: aspace,
                    stack_base: ctx.stack_top,
                    entry: header.entry,
                },
                actions,
            ),
        )
    }

    /// Builds a process around an existing entry address: one stack
    /// page and the fixed kernel ranges, with no image to load.
    pub fn new(
        entry: u64,
        ctx: &BuildContext,
        alloc: &mut PageTableFrameAllocator,
        counter: &mut u32,
    ) -> (r: Result<Process, KernelError>)
        requires
            old(alloc).inv(),
            crate::mem::disjoint_usable(old(alloc).map_view()),
            ctx.wf(),
            ctx.stack_pages >= 1,
            build_targets_separated(*ctx, Seq::empty()),
        ensures
            final(alloc).inv(),
            final(alloc).map_view() == old(alloc).map_view(),
            r matches Err(e) ==> e == KernelError::AllocationExhausted && final(alloc).position()
                == final(alloc).stream().len(),
            r matches Ok(p) ==> forall|q: u64|
                valid_page(q) && !in_window(*ctx, q) && !in_stack(*ctx, q) && !in_code(*ctx, q)
                    && !in_kstack(*ctx, q) ==> #[trigger] p.address_space.spec_translate_page(
                    q,
                ) is None,
            r matches Ok(p) ==> {
                &&& p.address_space.wf()
                &&& p.entry == entry
                &&& p.stack_base == ctx.stack_top
                &&& p.id == *old(counter)
                &&& *final(counter) == (*old(counter)).wrapping_add(1)
                &&& p.address_space.spec_root() as int == old(alloc).stream()[old(alloc).position()]
                &&& p.address_space.table_count() >= 1
                &&& final(alloc).position() > old(alloc).position()
                &&& p.address_space.spec_translate_page(ctx.stack_top) is Some
            },
    {
        let mut aspace = match AddressSpace::new_address_space(alloc) {
            Ok(a) => a,
            Err(_) => {
                proof {
                    alloc.lemma_cursor_bounds();
                }
                return Err(KernelError::AllocationExhausted);
            },
        };
        let ghost pos0 = old(alloc).position();
        let ghost fresh_space = aspace;
        proof {
            old(alloc).lemma_cursor_bounds();
            assert forall|x: int|
                alloc.position() <= x < alloc.stream().len() implies !aspace.is_table(
                #[trigger] alloc.stream()[x],
            ) by {
                crate::mem::lemma_frame_stream_injective(old(alloc).map_view(), pos0, x);
            }
        }
        match map_stack(&mut aspace, alloc, ctx.stack_top, 1) {
            Ok(_) => {},
            Err(e) => {
                proof {
                    alloc.lemma_cursor_bounds();
                    if !(e is FrameAllocationFailed) {
                        assert(false);
                    }
                }
                return Err(kernel_error_of(e));
            },
        }
        let ghost after_stack = aspace;
        let ghost s2 = aspace;
        proof {
            assert forall|p: u64|
                valid_page(p) && !(ctx.stack_top - 4096 < p <= ctx.stack_top) implies s2.spec_translate_page(
                p,
            ) is None && !s2.spec_path_blocked(p) by {
                assert(fresh_space.spec_translate_page(p) is None);
                assert(!fresh_space.spec_path_blocked(p));
                assert(s2.spec_translate_page(p) == fresh_space.spec_translate_page(p));
                assert(s2.spec_path_blocked(p) == fresh_space.spec_path_blocked(p));
            }
        }
        if let Some((cs, ce)) = ctx.kernel_code {
            match identity_map_range(
                &mut aspace,
                alloc,
                cs,
                ce,
                PageFlags { writable: true, user: true },
                MapPolicy::Strict,
            ) {
                Ok(_) => {},
                Err(e) => {
                    proof {
                        alloc.lemma_cursor_bounds();
                        if !(e is FrameAllocationFailed) {
                            let v = choose|v: u64|
                                valid_page(v) && cs - cs % 4096 <= v <= ce - ce % 4096 && (
                                #[trigger] s2.spec_translate_page(v) is Some
                                    || s2.spec_path_blocked(v));
                            assert(in_code(*ctx, v));
                            assert(!(ctx.stack_top - 4096 < v <= ctx.stack_top));
                            assert(false);
                        }
                    }
                    return Err(kernel_error_of(e));
                },
            }
        }
        let ghost s3 = aspace;
        proof {
            assert forall|p: u64|
                valid_page(p) && !(ctx.stack_top - 4096 < p <= ctx.stack_top) && !in_code(
                    *ctx,
                    p,
                ) implies s3.spec_translate_page(p) is None && !s3.spec_path_blocked(p) by {
                assert(s2.spec_translate_page(p) is None && !s2.spec_path_blocked(p));
                if ctx.kernel_code is Some {
                    assert(s3.spec_translate_page(p) == s2.spec_translate_page(p));
                    assert(s3.spec_path_blocked(p) == s2.spec_path_blocked(p));
                } else {
                    assert(s3 == s2);
                }
            }
        }
        if let Some((ks, ke)) = ctx.kernel_stack {
            match identity_map_range(
                &mut aspace,
                alloc,
                ks,
                ke,
                PageFlags { writable: true, user: false },
                MapPolicy::Strict,
            ) {
                Ok(_) => {},
                Err(e) => {
                    proof {
                        alloc.lemma_cursor_bounds();
                        if !(e is FrameAllocationFailed) {
                            let v = choose|v: u64|
                                valid_page(v) && ks - ks % 4096 <= v <= ke - ke % 4096 && (
                                #[trigger] s3.spec_translate_page(v) is Some
                                    || s3.spec_path_blocked(v));
                            assert(in_kstack(*ctx, v));
                            assert(!(ctx.stack_top - 4096 < v <= ctx.stack_top));
                            assert(false);
                        }
                    }
                    return Err(kernel_error_of(e));
                },
            }
        }
        let ghost s4 = aspace;
        let id = *counter;
        *counter = counter.wrapping_add(1);
        proof {
            crate::paging::lemma_is_table_count(aspace, aspace.spec_root() as int);
            assert(after_stack.spec_translate_page((ctx.stack_top - 4096 * 0) as u64) is Some);
            assert(aspace.spec_translate_page(ctx.stack_top) is Some);
            // Completeness: nothing outside the build's targets is
            // mapped.
            assert forall|q: u64|
                valid_page(q) && !in_window(*ctx, q) && !in_stack(*ctx, q) && !in_code(*ctx, q)
                    && !in_kstack(*ctx, q) implies #[trigger] aspace.spec_translate_page(
                q,
            ) is None by {
                assert(!(ctx.stack_top - 4096 < q <= ctx.stack_top)) by (nonlinear_arith)
                    requires
                        !in_stack(*ctx, q),
                        in_stack(*ctx, q) == (ctx.stack_top - 4096 * ctx.stack_pages < q
                            <= ctx.stack_top),
                        ctx.stack_pages >= 1,
                ;
                assert(s3.spec_translate_page(q) is None && !s3.spec_path_blocked(q));
                if ctx.kernel_stack is Some {
                    assert(s4.spec_translate_page(q) == s3.spec_translate_page(q));
                } else {
                    assert(s4 == s3);
                }
            }
        }
        Ok(Process { id, address_space: aspace, stack_base: ctx.stack_top, entry })
    }
}

/// Two address spaces whose roots were drawn at different positions of
/// one non-overlapping memory map's frame stream have distinct root
/// table addresses; and since each space exclusively owns its nodes, a
/// mapping call on one cannot move any translation of the other.
pub proof fn lemma_distinct_roots(
    a: AddressSpace,
    b: AddressSpace,
    map: Seq<crate::mem::MemoryDescriptor>,
    ka: int,
    kb: int,
)
    requires
        crate::mem::disjoint_usable(map),
        0 <= ka < kb < crate::mem::frame_stream(map).len(),
        a.spec_root() as int == crate::mem::frame_stream(map)[ka],
        b.spec_root() as int == crate::mem::frame_stream(map)[kb],
    ensures
        a.spec_root() != b.spec_root(),
{
    crate::mem::lemma_frame_stream_injective(map, ka, kb);
}

/// A process under the scheduler's care.
pub struct ManagedProcess {
    pub process: Process,
    pub state: State,
    pub kernel: bool,
}

impl ManagedProcess {
    /// Wraps a freshly built kernel-flagged process, ready to run.
    pub fn new_kernel_process(process: Process) -> (r: ManagedProcess)
        ensures
            r.process == process,
            r.state is Ready,
            r.kernel,
    {
        ManagedProcess { process, state: State::Ready, kernel: true }
    }

    /// Hands the process to the manager.
    pub fn spawn(self, mgr: &mut ProcessManager)
        ensures
            final(mgr).processes@ == old(mgr).processes@.push(self),
            final(mgr).next_process == old(mgr).next_process,
    {
        mgr.processes.push(self);
    }

    /// The address-space root to install when switching to this
    /// process; writing it to the paging root register activates the
    /// space.
    pub fn load(&self) -> (r: u64)
        ensures
            r == self.process.address_space.spec_root(),
    {
        self.process.address_space.root_addr()
    }
}

/// The processes the kernel knows, and which one the scheduler hook
/// would pick next.
pub struct ProcessManager {
    pub processes: Vec<ManagedProcess>,
    pub next_process: usize,
}

impl ProcessManager {
    /// An empty manager: no processes, cursor at the front.
    pub fn new() -> (r: ProcessManager)
        ensures
            r.processes@.len() == 0,
            r.next_process == 0,
    {
        ProcessManager { processes: Vec::new(), next_process: 0 }
    }
}

/// Registers the scheduler hook on its timer vector.
pub fn init(table: &mut crate::interrupts::HandlerTable)
    ensures
        final(table).handlers@ == old(table).handlers@.push(
            (crate::interrupts::SCHEDULER_VECTOR, crate::interrupts::SCHEDULER_HANDLER),
        ),
{
    crate::interrupts::register_handler(
        table,
        crate::interrupts::SCHEDULER_VECTOR,
        crate::interrupts::SCHEDULER_HANDLER,
    );
}

/// The scheduler hook: advances the next-process index when any process
/// exists, and does nothing more — it saves and restores no context and
/// is consciously incomplete.
pub fn schedular(mgr: &mut ProcessManager)
    requires
        old(mgr).processes@.len() > 0 ==> old(mgr).next_process < old(mgr).processes@.len(),
    ensures
        final(mgr).processes@ == old(mgr).processes@,
        old(mgr).processes@.len() > 0 ==> final(mgr).next_process == old(mgr).next_process + 1,
        old(mgr).processes@.len() == 0 ==> final(mgr).next_process == old(mgr).next_process,
{
    if mgr.processes.len() > 0 {
        mgr.next_process = mgr.next_process + 1;
    }
}

/// Maps the relocated boot image into a space with 2 MiB pages: the
/// frames covering `[phys_start, phys_start + size]` appear in order
/// from `virt_base`, as the boot path maps the container before
/// reading executables out of it.
pub fn map_boot_image_window(
    aspace: &mut AddressSpace,
    alloc: &mut PageTableFrameAllocator,
    phys_start: u64,
    size: u64,
    virt_base: u64,
) -> (r: Result<(), MapError>)
    requires
        old(aspace).wf(),
        old(alloc).inv(),
        crate::mem::disjoint_usable(old(alloc).map_view()),
        old(aspace).fresh_frames(*old(alloc)),
        virt_base % 0x20_0000 == 0,
        phys_start + size <= u64::MAX,
        virt_base + ((size / 0x20_0000 + 2) * 0x20_0000) <= 0x1_0000_0000_0000,
    ensures
        final(aspace).wf(),
        final(alloc).inv(),
        final(alloc).map_view() == old(alloc).map_view(),
        final(aspace).spec_root() == old(aspace).spec_root(),
        final(aspace).fresh_frames(*final(alloc)),
        final(alloc).position() - old(alloc).position() == final(aspace).table_count() - old(aspace).table_count(),
        forall|a: int| old(aspace).is_table(a) ==> final(aspace).is_table(a),
        preserves_mappings(*old(aspace), *final(aspace)),
        forall|p: u64|
            valid_page(p) ==> #[trigger] final(aspace).spec_leaf_entry(p) == old(aspace).spec_leaf_entry(p),
        r matches Err(e) ==> e is FrameAllocationFailed || exists|k: u64|
            0 <= k < (phys_start + size) / 0x20_0000 - phys_start / 0x20_0000 + 1 && {
                ||| #[trigger] old(aspace).spec_meg_entry_present((virt_base + k * 0x20_0000) as u64)
                ||| old(aspace).spec_path_blocked((virt_base + k * 0x20_0000) as u64)
            },
        r is Ok ==> forall|p: u64|
            valid_page(p) && virt_base <= p < virt_base + ((phys_start + size) / 0x20_0000
                - phys_start / 0x20_0000 + 1) * 0x20_0000 ==> #[trigger] final(aspace).spec_translate_page(p) == Some(
                ((phys_start / 0x20_0000) * 0x20_0000 + (p - virt_base)) as u64,
            ),
        r matches Err(MapError::FrameAllocationFailed) ==> final(alloc).position() == final(alloc).stream().len(),
{
    let first = phys_start / 0x20_0000 * 0x20_0000;
    let count = (phys_start + size) / 0x20_0000 - phys_start / 0x20_0000 + 1;
    let mut k: u64 = 0;
    proof {
        assert((phys_start + size) / 0x20_0000 * 0x20_0000 + 0x20_0000 <= u64::MAX + 0x20_0000);
    }
    while k < count
        invariant
            aspace.wf(),
            alloc.inv(),
            alloc.map_view() == old(alloc).map_view(),
            crate::mem::disjoint_usable(alloc.map_view()),
            aspace.fresh_frames(*alloc),
            aspace.spec_root() == old(aspace).spec_root(),
            alloc.position() - old(alloc).position() == aspace.table_count() - old(aspace).table_count(),
            forall|a: int| old(aspace).is_table(a) ==> aspace.is_table(a),
            preserves_mappings(*old(aspace), *aspace),
            k <= count,
            first == phys_start / 0x20_0000 * 0x20_0000,
            first % 0x20_0000 == 0,
            first + count * 0x20_0000 <= u64::MAX + 0x20_0000,
            count == (phys_start + size) / 0x20_0000 - phys_start / 0x20_0000 + 1,
            virt_base % 0x20_0000 == 0,
            virt_base + count * 0x20_0000 <= 0x1_0000_0000_0000,
            forall|p: u64|
                valid_page(p) ==> #[trigger] aspace.spec_leaf_entry(p) == old(aspace).spec_leaf_entry(p),
            forall|p: u64|
                valid_page(p) && !(virt_base <= p < virt_base + k * 0x20_0000)
                    ==> #[trigger] aspace.spec_path_blocked(p) == old(aspace).spec_path_blocked(p) && aspace.spec_meg_entry_present(p) == old(aspace).spec_meg_entry_present(p),
            forall|p: u64|
                valid_page(p) && virt_base <= p < virt_base + k * 0x20_0000
                    ==> #[trigger] aspace.spec_translate_page(p) == Some(
                    (first + (p - virt_base)) as u64,
                ),
        decreases count - k,
    {
        let page = virt_base + k * 0x20_0000;
        let frame = first + k * 0x20_0000;
        let ghost prev = *aspace;
        proof {
            assert(page % 0x20_0000 == 0) by (nonlinear_arith)
                requires
                    virt_base % 0x20_0000 == 0,
                    page == virt_base + k * 0x20_0000,
            ;
            assert(valid_page(page)) by {
                assert(page % 4096 == 0) by (nonlinear_arith)
                    requires
                        page % 0x20_0000 == 0,
                ;
            }
            assert(!(virt_base <= page < virt_base + k * 0x20_0000));
            assert(aspace.spec_path_blocked(page) == old(aspace).spec_path_blocked(page)
                && aspace.spec_meg_entry_present(page) == old(aspace).spec_meg_entry_present(page));
        }
        match aspace.map_huge_2m(alloc, page, frame, PageFlags { writable: true, user: false }) {
            Ok(_) => {},
            Err(e) => {
                proof {
                    alloc.lemma_cursor_bounds();
                    if !(e is FrameAllocationFailed) {
                        assert(old(aspace).spec_meg_entry_present(page) || old(aspace).spec_path_blocked(page));
                    }
                    assert forall|p: u64| valid_page(p) implies #[trigger] aspace.spec_leaf_entry(
                        p,
                    ) == old(aspace).spec_leaf_entry(p) by {
                        assert(prev.spec_leaf_entry(p) == old(aspace).spec_leaf_entry(p));
                    }
                }
                return Err(e);
            },
        }
        proof {
            assert forall|p: u64| valid_page(p) && virt_base <= p < virt_base + (k + 1)
                * 0x20_0000 implies #[trigger] aspace.spec_translate_page(p) == Some(
                (first + (p - virt_base)) as u64,
            ) by {
                if p < virt_base + k * 0x20_0000 {
                    assert(prev.spec_translate_page(p) == Some((first + (p - virt_base)) as u64));
                    assert(p >> 21 != page >> 21) by (bit_vector)
                        requires
                            p < page,
                            page % 0x20_0000 == 0,
                    ;
                } else {
                    assert(p >> 21 == page >> 21) by (bit_vector)
                        requires
                            page <= p < page + 0x20_0000,
                            page % 0x20_0000 == 0,
                    ;
                    assert(p % 0x20_0000 == p - page) by (bit_vector)
                        requires
                            page <= p < page + 0x20_0000,
                            page % 0x20_0000 == 0,
                    ;
                    assert(aspace.spec_translate_page(p) == Some((frame + p % 0x20_0000) as u64));
                }
            }
            assert forall|p: u64|
                valid_page(p) && prev.spec_translate_page(p) is Some implies #[trigger] aspace.spec_translate_page(
                p,
            ) == prev.spec_translate_page(p) by {
                if p >> 21 == page >> 21 {
                    assert(prev.spec_translate_page(p) is None);
                }
            }
            assert forall|p: u64|
                valid_page(p) && !(virt_base <= p < virt_base + (k + 1) * 0x20_0000) implies
                #[trigger] aspace.spec_path_blocked(p) == old(aspace).spec_path_blocked(p)
                && aspace.spec_meg_entry_present(p) == old(aspace).spec_meg_entry_present(p) by {
                assert(p >> 21 != page >> 21) by (bit_vector)
                    requires
                        !(page <= p < page + 0x20_0000),
                        page % 0x20_0000 == 0,
                ;
                assert(prev.spec_path_blocked(p) == old(aspace).spec_path_blocked(p));
                assert(prev.spec_meg_entry_present(p) == old(aspace).spec_meg_entry_present(p));
            }
            assert forall|p: u64| valid_page(p) implies #[trigger] aspace.spec_leaf_entry(p) == old(aspace).spec_leaf_entry(p) by {
                assert(prev.spec_leaf_entry(p) == old(aspace).spec_leaf_entry(p));
            }
            lemma_preserves_mappings_trans(*old(aspace), prev, *aspace);
        }
        k = k + 1;
    }
    Ok(())
}

} // verus!
