//! Four-level page-table manager.
//!
//! An `AddressSpace` owns a root table node and every intermediate node
//! hanging off it. Each node is a fixed array of 512 entries; an entry
//! encodes presence, writability, user accessibility, the huge-page bit
//! and a frame address. A translation path walks four levels from the
//! root, indexed by fixed-width slices of the virtual address. Backing
//! frames for new nodes come from the frame allocator; a node is fully
//! zero-initialized before any of its entries is marked present, so no
//! partially built level is ever observable.

use vstd::prelude::*;

use crate::mem::PageTableFrameAllocator;

verus! {

/// Number of entries in one page-table node.
pub const TABLE_ENTRIES: usize = 512;

/// How a mapping call may fail.
#[derive(Clone, Copy, Debug, PartialEq, Eq, Structural)]
pub enum MapError {
    /// The frame allocator could not back a new intermediate node.
    FrameAllocationFailed,
    /// The leaf entry was already present; carries the frame already
    /// installed there.
    PageAlreadyMapped(u64),
    /// An intermediate entry on the path is a huge-page mapping, so the
    /// walk cannot descend through it.
    ParentEntryHugePage,
}

/// What a mapping call does when the leaf entry is already present:
/// `Strict` callers treat it as fatal, `Tolerant` callers accept the
/// existing mapping and continue. Both behaviours exist in the boot
/// path and stay configurable by call site.
#[derive(Clone, Copy, Debug, PartialEq, Eq, Structural)]
pub enum MapPolicy {
    Strict,
    Tolerant,
}

/// Access flags a caller asks for at the leaf of a mapping.
#[derive(Clone, Copy, Debug, PartialEq, Eq, Structural)]
pub struct PageFlags {
    pub writable: bool,
    pub user: bool,
}

/// One page-table entry: `{present, writable, user, huge, frame}`.
#[derive(Clone, Copy, Debug, PartialEq, Eq, Structural)]
pub struct PageTableEntry {
    pub present: bool,
    pub writable: bool,
    pub user: bool,
    pub huge: bool,
    pub frame: u64,
}

impl PageTableEntry {
    /// The cleared entry a fresh node is filled with.
    pub open spec fn spec_absent() -> PageTableEntry {
        PageTableEntry { present: false, writable: false, user: false, huge: false, frame: 0 }
    }

    pub fn absent() -> (r: PageTableEntry)
        ensures
            r == PageTableEntry::spec_absent(),
    {
        PageTableEntry { present: false, writable: false, user: false, huge: false, frame: 0 }
    }
}

/// One page-table node: a fixed array of 512 entries.
#[derive(Clone, Debug)]
pub struct PageTable {
    pub entries: Vec<PageTableEntry>,
}

impl PageTable {
    /// A node is well formed when it holds exactly 512 entries.
    pub open spec fn wf(self) -> bool {
        self.entries@.len() == TABLE_ENTRIES
    }

    /// A zero-initialized node: every entry absent.
    pub fn zeroed() -> (r: PageTable)
        ensures
            r.wf(),
            forall|i: int| 0 <= i < 512 ==> r.entries@[i] == PageTableEntry::spec_absent(),
    {
        let mut entries: Vec<PageTableEntry> = Vec::new();
        let mut i: usize = 0;
        while i < TABLE_ENTRIES
            invariant
                i <= 512,
                entries@.len() == i,
                forall|k: int| 0 <= k < i ==> entries@[k] == PageTableEntry::spec_absent(),
            decreases 512 - i,
        {
            entries.push(PageTableEntry::absent());
            i = i + 1;
        }
        PageTable { entries }
    }

    /// Replaces entry `i`.
    pub fn set_entry(&mut self, i: usize, e: PageTableEntry)
        requires
            i < old(self).entries@.len(),
        ensures
            final(self).entries@ == old(self).entries@.update(i as int, e),
    {
        self.entries[i] = e;
    }
}

/// One owned node of an address space: its backing frame address, the
/// node itself, and (for reasoning only) its depth below the root.
pub struct TableSlot {
    pub addr: u64,
    pub level: Ghost<int>,
    pub table: PageTable,
}

/// Whether some slot carries address `a`.
spec fn tbl_has(tables: Seq<TableSlot>, a: int) -> bool {
    exists|i: int| 0 <= i < tables.len() && (#[trigger] tables[i]).addr == a
}

/// The index of the slot carrying address `a`.
spec fn tbl_idx(tables: Seq<TableSlot>, a: int) -> int {
    choose|i: int| 0 <= i < tables.len() && (#[trigger] tables[i]).addr == a
}

/// The entries of the node at address `a`.
spec fn tbl_entries(tables: Seq<TableSlot>, a: int) -> Seq<PageTableEntry> {
    tables[tbl_idx(tables, a)].table.entries@
}

/// The depth of the node at address `a`.
spec fn tbl_level(tables: Seq<TableSlot>, a: int) -> int {
    tables[tbl_idx(tables, a)].level@
}

/// Index slice of `page` for walk step `level`: bits `39 - 9*level`
/// upward, nine bits wide.
pub open spec fn page_index(page: u64, level: int) -> int {
    ((page >> (39 - 9 * level) as u64) & 0x1ff) as int
}

/// A page address the four-level walk can place: page-aligned and
/// within the 48-bit translated range.
pub open spec fn valid_page(page: u64) -> bool {
    page % 4096 == 0 && page < 0x1_0000_0000_0000
}

/// An address space: the root node's frame address and every node the
/// space owns. Nodes are reached from the root by frame address.
pub struct AddressSpace {
    root: u64,
    tables: Vec<TableSlot>,
}

impl AddressSpace {
    /// Physical address of the root table node; installing it activates
    /// this address space.
    pub closed spec fn spec_root(self) -> u64 {
        self.root
    }

    /// Whether `a` is the backing frame of one of this space's nodes.
    pub closed spec fn is_table(self, a: int) -> bool {
        tbl_has(self.tables@, a)
    }

    /// How many nodes the space owns, the root included.
    pub closed spec fn table_count(self) -> int {
        self.tables@.len() as int
    }

    /// Structural well-formedness: distinct node addresses, 512 entries
    /// per node, the root at depth zero, every present non-huge entry of
    /// an inner node pointing one level down to an owned node, and no
    /// two inner entries pointing at the same node.
    pub closed spec fn wf(self) -> bool {
        let tables = self.tables@;
        &&& tbl_has(tables, self.root as int)
        &&& tbl_level(tables, self.root as int) == 0
        &&& forall|i: int, j: int|
            0 <= i < j < tables.len() ==> (#[trigger] tables[i]).addr != (#[trigger] tables[j]).addr
        &&& forall|i: int| 0 <= i < tables.len() ==> (#[trigger] tables[i]).table.wf()
        &&& forall|i: int| 0 <= i < tables.len() ==> 0 <= (#[trigger] tables[i]).level@ <= 3
        &&& forall|i: int, j: int|
            0 <= i < tables.len() && (#[trigger] tables[i]).level@ < 3 && 0 <= j < 512 && (
            #[trigger] tables[i].table.entries@[j]).present && !tables[i].table.entries@[j].huge
                ==> tbl_has(tables, tables[i].table.entries@[j].frame as int) && tbl_level(
                tables,
                tables[i].table.entries@[j].frame as int,
            ) == tables[i].level@ + 1
        &&& forall|i1: int, j1: int, i2: int, j2: int|
            {
                &&& 0 <= i1 < tables.len()
                &&& 0 <= i2 < tables.len()
                &&& tables[i1].level@ < 3
                &&& tables[i2].level@ < 3
                &&& 0 <= j1 < 512
                &&& 0 <= j2 < 512
                &&& (#[trigger] tables[i1].table.entries@[j1]).present
                &&& !tables[i1].table.entries@[j1].huge
                &&& (#[trigger] tables[i2].table.entries@[j2]).present
                &&& !tables[i2].table.entries@[j2].huge
                &&& tables[i1].table.entries@[j1].frame == tables[i2].table.entries@[j2].frame
            } ==> i1 == i2 && j1 == j2
    }

    /// What the walk finds for `page`, stepping from the root through up
    /// to four levels: nothing, a huge mapping met on the way down, or
    /// the leaf frame.
    pub closed spec fn spec_translate_page(self, page: u64) -> Option<u64> {
        let tables = self.tables@;
        let e0 = tbl_entries(tables, self.root as int)[page_index(page, 0)];
        if !e0.present || e0.huge || !tbl_has(tables, e0.frame as int) {
            None
        } else {
            let e1 = tbl_entries(tables, e0.frame as int)[page_index(page, 1)];
            if !e1.present {
                None
            } else if e1.huge {
                Some((e1.frame + page % 0x4000_0000) as u64)
            } else if !tbl_has(tables, e1.frame as int) {
                None
            } else {
                let e2 = tbl_entries(tables, e1.frame as int)[page_index(page, 2)];
                if !e2.present {
                    None
                } else if e2.huge {
                    Some((e2.frame + page % 0x20_0000) as u64)
                } else if !tbl_has(tables, e2.frame as int) {
                    None
                } else {
                    let e3 = tbl_entries(tables, e2.frame as int)[page_index(page, 3)];
                    if e3.present {
                        Some(e3.frame)
                    } else {
                        None
                    }
                }
            }
        }
    }

    /// A huge mapping stands on `page`'s walk above the leaf: the
    /// four-level walk cannot pass it, so a 4 KiB mapping call on the
    /// page reports the huge parent.
    pub closed spec fn spec_path_blocked(self, page: u64) -> bool {
        let tables = self.tables@;
        let e0 = tbl_entries(tables, self.root as int)[page_index(page, 0)];
        ||| (e0.present && e0.huge)
        ||| (e0.present && !e0.huge && tbl_has(tables, e0.frame as int) && {
            let e1 = tbl_entries(tables, e0.frame as int)[page_index(page, 1)];
            ||| (e1.present && e1.huge)
            ||| (e1.present && !e1.huge && tbl_has(tables, e1.frame as int) && tbl_entries(
                tables,
                e1.frame as int,
            )[page_index(page, 2)].present && tbl_entries(tables, e1.frame as int)[page_index(
                page,
                2,
            )].huge)
        })
    }

    /// The depth-one entry on `page`'s walk holds a table: the slot a
    /// 1 GiB mapping would take is occupied.
    pub closed spec fn spec_gig_entry_present(self, page: u64) -> bool {
        let tables = self.tables@;
        let e0 = tbl_entries(tables, self.root as int)[page_index(page, 0)];
        &&& e0.present
        &&& !e0.huge
        &&& tbl_has(tables, e0.frame as int)
        &&& tbl_entries(tables, e0.frame as int)[page_index(page, 1)].present
    }

    /// The depth-two entry on `page`'s walk holds a table: the slot a
    /// 2 MiB mapping would take is occupied.
    pub closed spec fn spec_meg_entry_present(self, page: u64) -> bool {
        let tables = self.tables@;
        let e0 = tbl_entries(tables, self.root as int)[page_index(page, 0)];
        &&& e0.present
        &&& !e0.huge
        &&& tbl_has(tables, e0.frame as int)
        &&& {
            let e1 = tbl_entries(tables, e0.frame as int)[page_index(page, 1)];
            &&& e1.present
            &&& !e1.huge
            &&& tbl_has(tables, e1.frame as int)
            &&& tbl_entries(tables, e1.frame as int)[page_index(page, 2)].present
        }
    }

    /// The leaf entry `page`'s four-level walk ends at, when the walk
    /// reaches a present leaf; it carries the installed access flags.
    pub closed spec fn spec_leaf_entry(self, page: u64) -> Option<PageTableEntry> {
        let tables = self.tables@;
        let e0 = tbl_entries(tables, self.root as int)[page_index(page, 0)];
        if e0.present && !e0.huge && tbl_has(tables, e0.frame as int) {
            let e1 = tbl_entries(tables, e0.frame as int)[page_index(page, 1)];
            if e1.present && !e1.huge && tbl_has(tables, e1.frame as int) {
                let e2 = tbl_entries(tables, e1.frame as int)[page_index(page, 2)];
                if e2.present && !e2.huge && tbl_has(tables, e2.frame as int) {
                    let e3 = tbl_entries(tables, e2.frame as int)[page_index(page, 3)];
                    if e3.present {
                        Some(e3)
                    } else {
                        None
                    }
                } else {
                    None
                }
            } else {
                None
            }
        } else {
            None
        }
    }

    /// Finds the slot holding the node at `a`, by linear search.
    fn find_table(&self, a: u64) -> (r: Option<usize>)
        requires
            self.wf(),
        ensures
            r is Some <==> self.is_table(a as int),
            r is Some ==> {
                &&& r->Some_0 < self.tables@.len()
                &&& self.tables@[r->Some_0 as int].addr == a
                &&& r->Some_0 as int == tbl_idx(self.tables@, a as int)
            },
    {
        let mut i: usize = 0;
        while i < self.tables.len()
            invariant
                self.wf(),
                i <= self.tables@.len(),
                forall|k: int| 0 <= k < i ==> (#[trigger] self.tables@[k]).addr != a,
            decreases self.tables@.len() - i,
        {
            if self.tables[i].addr == a {
                proof {
                    let j = tbl_idx(self.tables@, a as int);
                    assert(tbl_has(self.tables@, a as int));
                    assert(0 <= j < self.tables@.len() && self.tables@[j].addr == a);
                    if j != i as int {
                        assert(false);
                    }
                }
                return Some(i);
            }
            i = i + 1;
        }
        proof {
            if tbl_has(self.tables@, a as int) {
                let j = tbl_idx(self.tables@, a as int);
                assert(0 <= j < self.tables@.len() && self.tables@[j].addr == a);
                assert(false);
            }
        }
        None
    }

    /// The root node's physical address as a value, for installing the
    /// space on the hardware.
    pub fn root_addr(&self) -> (r: u64)
        ensures
            r == self.spec_root(),
    {
        self.root
    }

    /// Builds a fresh address space: one zeroed root node on a frame
    /// drawn from the allocator, and nothing mapped. Nothing of the
    /// currently active tables is copied.
    pub fn new_address_space(alloc: &mut PageTableFrameAllocator) -> (r: Result<
        AddressSpace,
        MapError,
    >)
        requires
            old(alloc).inv(),
        ensures
            final(alloc).inv(),
            final(alloc).map_view() == old(alloc).map_view(),
            old(alloc).position() < old(alloc).stream().len() ==> {
                &&& r is Ok
                &&& r->Ok_0.wf()
                &&& r->Ok_0.spec_root() as int == old(alloc).stream()[old(alloc).position()]
                &&& r->Ok_0.table_count() == 1
                &&& forall|a: int| r->Ok_0.is_table(a) <==> a == r->Ok_0.spec_root() as int
                &&& forall|p: u64| r->Ok_0.spec_translate_page(p) is None
                &&& forall|p: u64| !(#[trigger] r->Ok_0.spec_path_blocked(p))
                &&& forall|p: u64| !(#[trigger] r->Ok_0.spec_gig_entry_present(p))
                &&& forall|p: u64| !(#[trigger] r->Ok_0.spec_meg_entry_present(p))
                &&& forall|p: u64| (#[trigger] r->Ok_0.spec_leaf_entry(p)) is None
                &&& final(alloc).position() == old(alloc).position() + 1
            },
            old(alloc).position() >= old(alloc).stream().len() ==> {
                &&& r == Err::<AddressSpace, MapError>(MapError::FrameAllocationFailed)
                &&& *final(alloc) == *old(alloc)
            },
    {
        let frame = match alloc.allocate_frame() {
            Some(f) => f,
            None => {
                return Err(MapError::FrameAllocationFailed);
            },
        };
        let mut tables: Vec<TableSlot> = Vec::new();
        tables.push(TableSlot { addr: frame, level: Ghost(0int), table: PageTable::zeroed() });
        let r = AddressSpace { root: frame, tables };
        proof {
            assert(r.tables@[0].addr == frame);
            assert(tbl_has(r.tables@, frame as int));
            let j = tbl_idx(r.tables@, frame as int);
            assert(0 <= j < 1);
            assert(tbl_level(r.tables@, frame as int) == 0);
            assert forall|a: int| r.is_table(a) implies a == frame as int by {
                let i = tbl_idx(r.tables@, a);
            }
            assert forall|p: u64| r.spec_translate_page(p) is None by {
                assert(0 <= page_index(p, 0) < 512) by (bit_vector)
                    requires
                        page_index(p, 0) == ((p >> (39 - 9 * 0) as u64) & 0x1ff) as int,
                ;
                assert(!tbl_entries(r.tables@, r.root as int)[page_index(p, 0)].present);
            }
            assert forall|p: u64| !(#[trigger] r.spec_path_blocked(p)) by {
                assert(0 <= page_index(p, 0) < 512) by (bit_vector)
                    requires
                        page_index(p, 0) == ((p >> (39 - 9 * 0) as u64) & 0x1ff) as int,
                ;
                assert(!tbl_entries(r.tables@, r.root as int)[page_index(p, 0)].present);
            }
            assert forall|p: u64| !(#[trigger] r.spec_gig_entry_present(p)) by {
                assert(0 <= page_index(p, 0) < 512) by (bit_vector)
                    requires
                        page_index(p, 0) == ((p >> (39 - 9 * 0) as u64) & 0x1ff) as int,
                ;
                assert(!tbl_entries(r.tables@, r.root as int)[page_index(p, 0)].present);
            }
            assert forall|p: u64| !(#[trigger] r.spec_meg_entry_present(p)) by {
                assert(0 <= page_index(p, 0) < 512) by (bit_vector)
                    requires
                        page_index(p, 0) == ((p >> (39 - 9 * 0) as u64) & 0x1ff) as int,
                ;
                assert(!tbl_entries(r.tables@, r.root as int)[page_index(p, 0)].present);
            }
            assert forall|p: u64| (#[trigger] r.spec_leaf_entry(p)) is None by {
                assert(0 <= page_index(p, 0) < 512) by (bit_vector)
                    requires
                        page_index(p, 0) == ((p >> (39 - 9 * 0) as u64) & 0x1ff) as int,
                ;
                assert(!tbl_entries(r.tables@, r.root as int)[page_index(p, 0)].present);
            }
        }
        Ok(r)
    }

    /// Walks the tables for an arbitrary virtual address: the mapped
    /// physical address of its page, plus its offset inside the page.
    pub fn translate(&self, vaddr: u64) -> (r: Option<u64>)
        requires
            self.wf(),
            vaddr < 0x1_0000_0000_0000,
        ensures
            r == match self.spec_translate_page((vaddr - vaddr % 4096) as u64) {
                Option::Some(f) => Option::Some((f + vaddr % 4096) as u64),
                Option::None => Option::<u64>::None,
            },
    {
        let page = vaddr - vaddr % 4096;
        match self.translate_page(page) {
            Some(f) => Some((f as u128 + (vaddr % 4096) as u128) as u64),
            None => None,
        }
    }

    /// Walks the tables for one aligned page.
    pub fn translate_page(&self, page: u64) -> (r: Option<u64>)
        requires
            self.wf(),
            page % 4096 == 0,
            page < 0x1_0000_0000_0000,
        ensures
            r == self.spec_translate_page(page),
    {
        proof {
            lemma_page_index_bounds(page);
        }
        let i0 = ((page >> 39) & 0x1ff) as usize;
        let i1 = ((page >> 30) & 0x1ff) as usize;
        let i2 = ((page >> 21) & 0x1ff) as usize;
        let i3 = ((page >> 12) & 0x1ff) as usize;
        let k0 = match self.find_table(self.root) {
            Some(k) => k,
            None => {
                return None;
            },
        };
        let e0 = self.tables[k0].table.entries[i0];
        if !e0.present || e0.huge {
            return None;
        }
        let k1 = match self.find_table(e0.frame) {
            Some(k) => k,
            None => {
                return None;
            },
        };
        let e1 = self.tables[k1].table.entries[i1];
        if !e1.present {
            return None;
        }
        if e1.huge {
            return Some(((e1.frame as u128 + (page % 0x4000_0000) as u128) as u64));
        }
        let k2 = match self.find_table(e1.frame) {
            Some(k) => k,
            None => {
                return None;
            },
        };
        let e2 = self.tables[k2].table.entries[i2];
        if !e2.present {
            return None;
        }
        if e2.huge {
            return Some(((e2.frame as u128 + (page % 0x20_0000) as u128) as u64));
        }
        let k3 = match self.find_table(e2.frame) {
            Some(k) => k,
            None => {
                return None;
            },
        };
        let e3 = self.tables[k3].table.entries[i3];
        if e3.present {
            Some(e3.frame)
        } else {
            None
        }
    }
}

impl AddressSpace {
    /// Frames the allocator has not yet handed out will not collide with
    /// this space's nodes.
    pub open spec fn fresh_frames(self, alloc: PageTableFrameAllocator) -> bool {
        forall|k: int|
            alloc.position() <= k < alloc.stream().len() ==> !self.is_table(
                #[trigger] alloc.stream()[k],
            )
    }

    /// Makes the entry `idx` of the node at `parent` point one level
    /// down, allocating, zeroing and installing a fresh node if the
    /// entry is absent. New intermediate nodes are installed present and
    /// writable, user-accessible exactly when the mapping being
    /// installed is; an entry that already points down is left as it is.
    /// No translation changes.
    fn ensure_child(
        &mut self,
        alloc: &mut PageTableFrameAllocator,
        parent: u64,
        idx: usize,
        user: bool,
    ) -> (r: Result<u64, MapError>)
        requires
            old(self).wf(),
            old(self).is_table(parent as int),
            tbl_level(old(self).tables@, parent as int) < 3,
            idx < 512,
            old(alloc).inv(),
            crate::mem::disjoint_usable(old(alloc).map_view()),
            old(self).fresh_frames(*old(alloc)),
        ensures
            final(self).wf(),
            final(alloc).inv(),
            final(alloc).map_view() == old(alloc).map_view(),
            final(self).spec_root() == old(self).spec_root(),
            final(self).fresh_frames(*final(alloc)),
            forall|p: u64|
                #[trigger] final(self).spec_translate_page(p) == old(self).spec_translate_page(p),
            forall|p: u64|
                #[trigger] final(self).spec_path_blocked(p) == old(self).spec_path_blocked(p),
            forall|p: u64|
                #[trigger] final(self).spec_leaf_entry(p) == old(self).spec_leaf_entry(p),
            tbl_level(old(self).tables@, parent as int) == 0 ==> forall|p: u64|
                #[trigger] final(self).spec_gig_entry_present(p) == old(self).spec_gig_entry_present(p),
            tbl_level(old(self).tables@, parent as int) <= 1 ==> forall|p: u64|
                #[trigger] final(self).spec_meg_entry_present(p) == old(self).spec_meg_entry_present(p),
            forall|a: int|
                #[trigger] tbl_has(old(self).tables@, a) ==> tbl_has(final(self).tables@, a)
                    && tbl_level(final(self).tables@, a) == tbl_level(old(self).tables@, a),
            ({
                let oe = tbl_entries(old(self).tables@, parent as int)[idx as int];
                match r {
                    Result::Ok(c) => {
                        &&& final(self).is_table(c as int)
                        &&& tbl_level(final(self).tables@, c as int) == tbl_level(
                            old(self).tables@,
                            parent as int,
                        ) + 1
                        &&& tbl_has(final(self).tables@, parent as int)
                        &&& tbl_level(final(self).tables@, parent as int) == tbl_level(
                            old(self).tables@,
                            parent as int,
                        )
                        &&& tbl_entries(final(self).tables@, parent as int)[idx as int].present
                        &&& !tbl_entries(final(self).tables@, parent as int)[idx as int].huge
                        &&& tbl_entries(final(self).tables@, parent as int)[idx as int].frame == c
                        &&& if oe.present {
                            &&& !oe.huge
                            &&& c == oe.frame
                            &&& *final(self) == *old(self)
                            &&& *final(alloc) == *old(alloc)
                        } else {
                            &&& c as int == old(alloc).stream()[old(alloc).position()]
                            &&& final(alloc).position() == old(alloc).position() + 1
                            &&& final(self).table_count() == old(self).table_count() + 1
                            &&& forall|a: int|
                                #[trigger] final(self).is_table(a) <==> old(self).is_table(a) || a
                                    == c as int
                            &&& forall|j: int|
                                0 <= j < 512 ==> !tbl_entries(final(self).tables@, c as int)[j].present
                            &&& forall|a: int|
                                tbl_has(old(self).tables@, a) && a != parent
                                    ==> #[trigger] tbl_entries(final(self).tables@, a)
                                    == tbl_entries(old(self).tables@, a)
                            &&& tbl_entries(final(self).tables@, parent as int) == tbl_entries(
                                old(self).tables@,
                                parent as int,
                            ).update(
                                idx as int,
                                PageTableEntry {
                                    present: true,
                                    writable: true,
                                    user: user,
                                    huge: false,
                                    frame: c,
                                },
                            )
                        }
                    },
                    Result::Err(MapError::FrameAllocationFailed) => {
                        &&& !oe.present
                        &&& *final(self) == *old(self)
                        &&& *final(alloc) == *old(alloc)
                        &&& old(alloc).position() >= old(alloc).stream().len()
                    },
                    Result::Err(MapError::ParentEntryHugePage) => {
                        &&& oe.present && oe.huge
                        &&& *final(self) == *old(self)
                        &&& *final(alloc) == *old(alloc)
                    },
                    Result::Err(MapError::PageAlreadyMapped(_)) => false,
                }
            }),
    {
        let k = match self.find_table(parent) {
            Some(k) => k,
            None => {
                proof {
                    assert(false);
                }
                return Err(MapError::FrameAllocationFailed);
            },
        };
        proof {
            assert(tbl_idx(self.tables@, parent as int) == k as int);
        }
        let e = self.tables[k].table.entries[idx];
        if e.present {
            if e.huge {
                return Err(MapError::ParentEntryHugePage);
            }
            proof {
                assert(tbl_entries(self.tables@, parent as int)[idx as int] == e);
            }
            return Ok(e.frame);
        }
        let frame = match alloc.allocate_frame() {
            Some(f) => f,
            None => {
                return Err(MapError::FrameAllocationFailed);
            },
        };
        let ghost t1 = self.tables@;
        let ghost lvl = tbl_level(t1, parent as int);
        proof {
            assert(!tbl_has(t1, frame as int));
            assert forall|i: int| 0 <= i < t1.len() implies (#[trigger] t1[i]).addr != frame by {
                if t1[i].addr == frame {
                    assert(tbl_has(t1, frame as int));
                }
            }
        }
        let child_slot = TableSlot {
            addr: frame,
            level: Ghost(lvl + 1),
            table: PageTable::zeroed(),
        };
        let ghost cs = child_slot;
        self.tables.push(child_slot);
        let ghost t2 = self.tables@;
        proof {
            assert(t2 == t1.push(cs));
            lemma_lookup_push(t1, cs);
            // No old inner entry can point at the new node: each pointed
            // at a node that already existed, and the new address did not.
            assert forall|i: int, j: int|
                0 <= i < t1.len() && (#[trigger] t1[i]).level@ < 3 && 0 <= j < 512 && (
                #[trigger] t1[i].table.entries@[j]).present && !t1[i].table.entries@[j].huge implies t1[i].table.entries@[j].frame
                != frame by {
                assert(tbl_has(t1, t1[i].table.entries@[j].frame as int));
            }
        }
        let ne = PageTableEntry { present: true, writable: true, user, huge: false, frame };
        let slot = &mut self.tables[k];
        slot.table.set_entry(idx, ne);
        let ghost t3 = self.tables@;
        proof {
            assert(t3 == t2.update(k as int, t3[k as int]));
            assert(t3[k as int].addr == parent && t3[k as int].level@ == lvl);
            assert(t3[k as int].table.entries@ == t2[k as int].table.entries@.update(
                idx as int,
                ne,
            ));
            assert(t2[k as int] == t1[k as int]);
            lemma_lookup_update(t2, k as int, t3[k as int]);
            assert(tbl_entries(t2, parent as int) == tbl_entries(t1, parent as int));
            assert(tbl_entries(t3, parent as int) == tbl_entries(t1, parent as int).update(
                idx as int,
                ne,
            ));
            // Remaining frames of the stream differ from the one just
            // consumed: over a disjoint map the stream never repeats.
            assert forall|x: int|
                alloc.position() <= x < alloc.stream().len() implies !self.is_table(
                #[trigger] alloc.stream()[x],
            ) by {
                old(alloc).lemma_cursor_bounds();
                crate::mem::lemma_frame_stream_injective(
                    old(alloc).map_view(),
                    old(alloc).position(),
                    x,
                );
            }
            // Every well-formedness conjunct of the mutated space.
            assert forall|i: int| 0 <= i < t3.len() implies t3[i].addr == t2[i].addr && (
            #[trigger] t3[i]).level@ == t2[i].level@ by {}
            assert forall|i: int, j: int| 0 <= i < j < t3.len() implies (#[trigger] t3[i]).addr != (
            #[trigger] t3[j]).addr by {
                assert(t2[i].addr != t2[j].addr);
            }
            assert forall|i: int| 0 <= i < t3.len() implies (#[trigger] t3[i]).table.wf() by {
                if i != k as int {
                    assert(t3[i] == t2[i]);
                    if i < t1.len() {
                        assert(t2[i] == t1[i]);
                    }
                }
            }
            assert forall|i: int| 0 <= i < t3.len() implies 0 <= (#[trigger] t3[i]).level@ <= 3 by {
                if i < t1.len() {
                    assert(t2[i] == t1[i]);
                }
            }
            // Pointer discipline: old entries still point one level down
            // at nodes the space owns; the one new entry points at the
            // fresh child.
            assert forall|i: int, j: int|
                0 <= i < t3.len() && (#[trigger] t3[i]).level@ < 3 && 0 <= j < 512 && (
                #[trigger] t3[i].table.entries@[j]).present && !t3[i].table.entries@[j].huge implies tbl_has(
                t3,
                t3[i].table.entries@[j].frame as int,
            ) && tbl_level(t3, t3[i].table.entries@[j].frame as int) == t3[i].level@ + 1 by {
                let e2 = t3[i].table.entries@[j];
                if i == k as int && j == idx as int {
                    assert(e2 == ne);
                    assert(tbl_has(t2, frame as int));
                    assert(tbl_level(t2, frame as int) == lvl + 1);
                } else {
                    let eo = if i == k as int {
                        t1[i].table.entries@[j]
                    } else if i < t1.len() {
                        assert(t3[i] == t2[i] && t2[i] == t1[i]);
                        t1[i].table.entries@[j]
                    } else {
                        t3[i].table.entries@[j]
                    };
                    if i < t1.len() {
                        assert(e2 == t1[i].table.entries@[j]);
                        assert(tbl_has(t1, e2.frame as int) && tbl_level(t1, e2.frame as int)
                            == t1[i].level@ + 1);
                        assert(tbl_entries(t2, e2.frame as int) == tbl_entries(
                            t1,
                            e2.frame as int,
                        ));
                        assert(tbl_has(t2, e2.frame as int) && tbl_level(t2, e2.frame as int)
                            == t1[i].level@ + 1);
                    } else {
                        assert(t3[i] == cs);
                        assert(!e2.present);
                    }
                }
            }
            // Injectivity: the new entry points at a node nothing else
            // pointed at, and all other entries were injective already.
            assert forall|i1: int, j1: int, i2: int, j2: int|
                {
                    &&& 0 <= i1 < t3.len()
                    &&& 0 <= i2 < t3.len()
                    &&& t3[i1].level@ < 3
                    &&& t3[i2].level@ < 3
                    &&& 0 <= j1 < 512
                    &&& 0 <= j2 < 512
                    &&& (#[trigger] t3[i1].table.entries@[j1]).present
                    &&& !t3[i1].table.entries@[j1].huge
                    &&& (#[trigger] t3[i2].table.entries@[j2]).present
                    &&& !t3[i2].table.entries@[j2].huge
                    &&& t3[i1].table.entries@[j1].frame == t3[i2].table.entries@[j2].frame
                } implies i1 == i2 && j1 == j2 by {
                let a1 = t3[i1].table.entries@[j1];
                let a2 = t3[i2].table.entries@[j2];
                if i1 < t1.len() && !(i1 == k as int && j1 == idx as int) {
                    assert(a1 == t1[i1].table.entries@[j1]);
                }
                if i2 < t1.len() && !(i2 == k as int && j2 == idx as int) {
                    assert(a2 == t1[i2].table.entries@[j2]);
                }
                if i1 >= t1.len() {
                    assert(t3[i1] == cs);
                    assert(!a1.present);
                }
                if i2 >= t1.len() {
                    assert(t3[i2] == cs);
                    assert(!a2.present);
                }
                if (i1 == k as int && j1 == idx as int) && !(i2 == k as int && j2
                    == idx as int) {
                    assert(a2.frame != frame);
                    assert(false);
                }
                if (i2 == k as int && j2 == idx as int) && !(i1 == k as int && j1
                    == idx as int) {
                    assert(a1.frame != frame);
                    assert(false);
                }
            }
            assert forall|a: int| #[trigger] tbl_has(t1, a) implies tbl_has(t3, a) && tbl_level(
                t3,
                a,
            ) == tbl_level(t1, a) by {
                assert(tbl_entries(t2, a) == tbl_entries(t1, a));
                assert(tbl_has(t2, a));
                assert(tbl_level(t2, a) == tbl_level(t1, a));
                assert(tbl_has(t3, a));
                assert(tbl_level(t3, a) == tbl_level(t2, a));
            }
            // No translation changes: a path that met the updated entry
            // found it absent before and finds an empty node behind it
            // now, and every other read is untouched.
            assert forall|p: u64|
                {
                    &&& #[trigger] self.spec_translate_page(p) == old(self).spec_translate_page(p)
                    &&& self.spec_path_blocked(p) == old(self).spec_path_blocked(p)
                    &&& self.spec_leaf_entry(p) == old(self).spec_leaf_entry(p)
                    &&& (lvl == 0 ==> self.spec_gig_entry_present(p) == old(self).spec_gig_entry_present(p))
                    &&& (lvl <= 1 ==> self.spec_meg_entry_present(p) == old(self).spec_meg_entry_present(p))
                } by {
                lemma_page_index_bounds(p);
                let root = self.root as int;
                let i0 = page_index(p, 0);
                let i1 = page_index(p, 1);
                let i2 = page_index(p, 2);
                let i3 = page_index(p, 3);
                let oe0 = tbl_entries(t1, root)[i0];
                if root == parent as int && i0 == idx as int {
                    assert(!oe0.present);
                    assert(tbl_entries(t3, root)[i0] == ne);
                    assert(!tbl_entries(t3, frame as int)[i1].present);
                } else {
                    assert(tbl_entries(t3, root)[i0] == oe0);
                    if oe0.present && !oe0.huge {
                        if !tbl_has(t1, oe0.frame as int) {
                            if oe0.frame == frame {
                                assert(!tbl_entries(t3, frame as int)[i1].present);
                            }
                        } else {
                            assert(tbl_level(t1, oe0.frame as int) == tbl_level(t1, root) + 1);
                            let oe1 = tbl_entries(t1, oe0.frame as int)[i1];
                            if oe0.frame == parent && i1 == idx as int {
                                assert(!oe1.present);
                                assert(tbl_entries(t3, oe0.frame as int)[i1] == ne);
                                assert(!tbl_entries(t3, frame as int)[i2].present);
                            } else {
                                assert(tbl_entries(t3, oe0.frame as int)[i1] == oe1);
                                if oe1.present && !oe1.huge {
                                    if !tbl_has(t1, oe1.frame as int) {
                                        if oe1.frame == frame {
                                            assert(!tbl_entries(t3, frame as int)[i2].present);
                                        }
                                    } else {
                                        assert(tbl_level(t1, oe1.frame as int) == tbl_level(
                                            t1,
                                            oe0.frame as int,
                                        ) + 1);
                                        let oe2 = tbl_entries(t1, oe1.frame as int)[i2];
                                        if oe1.frame == parent && i2 == idx as int {
                                            assert(!oe2.present);
                                            assert(tbl_entries(t3, oe1.frame as int)[i2] == ne);
                                            assert(!tbl_entries(t3, frame as int)[i3].present);
                                        } else {
                                            assert(tbl_entries(t3, oe1.frame as int)[i2] == oe2);
                                            if oe2.present && !oe2.huge {
                                                if !tbl_has(t1, oe2.frame as int) {
                                                    if oe2.frame == frame {
                                                        assert(!tbl_entries(
                                                            t3,
                                                            frame as int,
                                                        )[i3].present);
                                                    }
                                                } else {
                                                    assert(tbl_level(t1, oe2.frame as int)
                                                        == tbl_level(t1, oe1.frame as int) + 1);
                                                    assert(tbl_level(t1, oe2.frame as int) == 3);
                                                    assert(oe2.frame != parent);
                                                    assert(tbl_entries(t3, oe2.frame as int)
                                                        == tbl_entries(t1, oe2.frame as int));
                                                }
                                            }
                                        }
                                    }
                                }
                            }
                        }
                    }
                }
            }
            assert forall|p: u64| #[trigger] self.spec_path_blocked(p) == old(self).spec_path_blocked(p) by {
                assert(self.spec_translate_page(p) == old(self).spec_translate_page(p));
            }
            assert forall|p: u64| #[trigger] self.spec_leaf_entry(p) == old(self).spec_leaf_entry(p) by {
                assert(self.spec_translate_page(p) == old(self).spec_translate_page(p));
            }
            if lvl == 0 {
                assert forall|p: u64| #[trigger] self.spec_gig_entry_present(p) == old(self).spec_gig_entry_present(p) by {
                    assert(self.spec_translate_page(p) == old(self).spec_translate_page(p));
                }
            }
            if lvl <= 1 {
                assert forall|p: u64| #[trigger] self.spec_meg_entry_present(p) == old(self).spec_meg_entry_present(p) by {
                    assert(self.spec_translate_page(p) == old(self).spec_translate_page(p));
                }
            }
        }
        Ok(frame)
    }
}

impl AddressSpace {
    /// Maps one 4 KiB page to the given frame, walking from the root and
    /// installing missing intermediate nodes from the allocator. An
    /// already-present leaf is a conflict: fatal under the strict policy,
    /// accepted as it stands under the tolerant one. On success every
    /// other page translates exactly as before, and each frame drawn
    /// from the allocator became exactly one new table node.
    #[verifier::rlimit(60)]
    pub fn map(
        &mut self,
        alloc: &mut PageTableFrameAllocator,
        page: u64,
        frame: u64,
        flags: PageFlags,
        policy: MapPolicy,
    ) -> (r: Result<(), MapError>)
        requires
            old(self).wf(),
            valid_page(page),
            old(alloc).inv(),
            crate::mem::disjoint_usable(old(alloc).map_view()),
            old(self).fresh_frames(*old(alloc)),
        ensures
            final(self).wf(),
            final(alloc).inv(),
            final(alloc).map_view() == old(alloc).map_view(),
            final(self).spec_root() == old(self).spec_root(),
            final(self).fresh_frames(*final(alloc)),
            final(alloc).position() - old(alloc).position() == final(self).table_count() - old(self).table_count(),
            old(self).table_count() <= final(self).table_count() <= old(self).table_count() + 3,
            forall|a: int| old(self).is_table(a) ==> final(self).is_table(a),
            forall|p: u64|
                valid_page(p) && p != page ==> #[trigger] final(self).spec_translate_page(p) == old(self).spec_translate_page(p),
            forall|p: u64|
                valid_page(p) ==> #[trigger] final(self).spec_path_blocked(p) == old(self).spec_path_blocked(p),
            forall|p: u64|
                valid_page(p) && p != page ==> #[trigger] final(self).spec_leaf_entry(p) == old(self).spec_leaf_entry(p),
            match r {
                Result::Ok(_) => {
                    if old(self).spec_translate_page(page) is None {
                        &&& final(self).spec_translate_page(page) == Some(frame)
                        &&& final(self).spec_leaf_entry(page) == Some(
                            PageTableEntry {
                                present: true,
                                writable: flags.writable,
                                user: flags.user,
                                huge: false,
                                frame,
                            },
                        )
                    } else {
                        &&& policy is Tolerant
                        &&& *final(self) == *old(self)
                        &&& *final(alloc) == *old(alloc)
                    }
                },
                Result::Err(MapError::PageAlreadyMapped(f)) => {
                    &&& policy is Strict
                    &&& old(self).spec_translate_page(page) == Some(f)
                    &&& *final(self) == *old(self)
                    &&& *final(alloc) == *old(alloc)
                },
                Result::Err(MapError::ParentEntryHugePage) => {
                    &&& old(self).spec_path_blocked(page)
                    &&& *final(self) == *old(self)
                    &&& *final(alloc) == *old(alloc)
                },
                Result::Err(MapError::FrameAllocationFailed) => {
                    &&& final(alloc).position() == final(alloc).stream().len()
                    &&& final(self).spec_translate_page(page) == old(self).spec_translate_page(
                        page,
                    )
                },
            },
    {
        proof {
            lemma_page_index_bounds(page);
        }
        let i0 = ((page >> 39) & 0x1ff) as usize;
        let i1 = ((page >> 30) & 0x1ff) as usize;
        let i2 = ((page >> 21) & 0x1ff) as usize;
        let i3 = ((page >> 12) & 0x1ff) as usize;
        let root = self.root;
        let ghost s0 = *self;
        let ghost a0 = *alloc;
        let c1 = match self.ensure_child(alloc, root, i0, flags.user) {
            Ok(c) => c,
            Err(e) => {
                proof {
                    alloc.lemma_cursor_bounds();
                }
                return Err(e);
            },
        };
        let ghost s1 = *self;
        let c2 = match self.ensure_child(alloc, c1, i1, flags.user) {
            Ok(c) => c,
            Err(e) => {
                proof {
                    alloc.lemma_cursor_bounds();
                    if !tbl_entries(s0.tables@, root as int)[i0 as int].present {
                        assert(!tbl_entries(s1.tables@, c1 as int)[i1 as int].present);
                    }
                }
                return Err(e);
            },
        };
        let ghost s2 = *self;
        let c3 = match self.ensure_child(alloc, c2, i2, flags.user) {
            Ok(c) => c,
            Err(e) => {
                proof {
                    alloc.lemma_cursor_bounds();
                    if !tbl_entries(s1.tables@, c1 as int)[i1 as int].present {
                        assert(!tbl_entries(s2.tables@, c2 as int)[i2 as int].present);
                    }
                    if !tbl_entries(s0.tables@, root as int)[i0 as int].present {
                        assert(!tbl_entries(s1.tables@, c1 as int)[i1 as int].present);
                    }
                }
                return Err(e);
            },
        };
        let ghost s3 = *self;
        let ghost t3 = self.tables@;
        proof {
            assert(tbl_entries(t3, root as int)[i0 as int].frame == c1);
            assert(tbl_entries(t3, root as int)[i0 as int].present);
            assert(!tbl_entries(t3, root as int)[i0 as int].huge);
            assert(tbl_entries(t3, c1 as int)[i1 as int].frame == c2);
            assert(tbl_entries(t3, c1 as int)[i1 as int].present);
            assert(!tbl_entries(t3, c1 as int)[i1 as int].huge);
            assert(tbl_entries(t3, c2 as int)[i2 as int].frame == c3);
            assert(tbl_entries(t3, c2 as int)[i2 as int].present);
            assert(!tbl_entries(t3, c2 as int)[i2 as int].huge);
            assert(tbl_level(t3, root as int) == 0);
            assert(tbl_level(t3, c1 as int) == 1);
            assert(tbl_level(t3, c2 as int) == 2);
            assert(tbl_level(t3, c3 as int) == 3);
            assert(self.spec_translate_page(page) == if tbl_entries(t3, c3 as int)[i3 as int].present {
                Some(tbl_entries(t3, c3 as int)[i3 as int].frame)
            } else {
                None
            });
        }
        let k3 = match self.find_table(c3) {
            Some(k) => k,
            None => {
                proof {
                    assert(false);
                }
                return Err(MapError::FrameAllocationFailed);
            },
        };
        proof {
            assert(tbl_idx(t3, c3 as int) == k3 as int);
        }
        let e3 = self.tables[k3].table.entries[i3];
        if e3.present {
            proof {
                // A present leaf means every level of the path already
                // existed, so nothing was created or drawn on the way.
                assert(e3 == tbl_entries(t3, c3 as int)[i3 as int]);
                if !tbl_entries(s0.tables@, root as int)[i0 as int].present {
                    assert(forall|j: int| 0 <= j < 512 ==> !tbl_entries(s1.tables@, c1 as int)[j].present);
                    assert(!tbl_entries(s1.tables@, c1 as int)[i1 as int].present);
                    assert(forall|j: int| 0 <= j < 512 ==> !tbl_entries(s2.tables@, c2 as int)[j].present);
                    assert(forall|j: int| 0 <= j < 512 ==> !tbl_entries(s3.tables@, c3 as int)[j].present);
                    assert(false);
                }
                assert(s1 == s0);
                if !tbl_entries(s1.tables@, c1 as int)[i1 as int].present {
                    assert(forall|j: int| 0 <= j < 512 ==> !tbl_entries(s2.tables@, c2 as int)[j].present);
                    assert(forall|j: int| 0 <= j < 512 ==> !tbl_entries(s3.tables@, c3 as int)[j].present);
                    assert(false);
                }
                assert(s2 == s1);
                if !tbl_entries(s2.tables@, c2 as int)[i2 as int].present {
                    assert(forall|j: int| 0 <= j < 512 ==> !tbl_entries(s3.tables@, c3 as int)[j].present);
                    assert(false);
                }
                assert(s3 == s2);
                assert(*self == s0);
                assert(s0.spec_translate_page(page) == Some(e3.frame));
            }
            match policy {
                MapPolicy::Strict => {
                    return Err(MapError::PageAlreadyMapped(e3.frame));
                },
                MapPolicy::Tolerant => {
                    return Ok(());
                },
            }
        }
        self.install_leaf(k3, page, frame, flags, Ghost(root), Ghost(c1), Ghost(c2), Ghost(c3));
        Ok(())
    }

    /// Writes the leaf entry at the end of an established path. The
    /// walk for `page` must already reach the node in slot `k3` with its
    /// leaf entry absent; afterwards `page` translates to `frame` and no
    /// other valid page's translation moves.
    #[verifier::rlimit(100)]
    fn install_leaf(
        &mut self,
        k3: usize,
        page: u64,
        frame: u64,
        flags: PageFlags,
        Ghost(root): Ghost<u64>,
        Ghost(c1): Ghost<u64>,
        Ghost(c2): Ghost<u64>,
        Ghost(c3): Ghost<u64>,
    )
        requires
            old(self).wf(),
            valid_page(page),
            root == old(self).spec_root(),
            k3 < old(self).tables@.len(),
            old(self).tables@[k3 as int].addr == c3,
            tbl_idx(old(self).tables@, c3 as int) == k3 as int,
            tbl_entries(old(self).tables@, root as int)[page_index(page, 0)].present,
            !tbl_entries(old(self).tables@, root as int)[page_index(page, 0)].huge,
            tbl_entries(old(self).tables@, root as int)[page_index(page, 0)].frame == c1,
            tbl_entries(old(self).tables@, c1 as int)[page_index(page, 1)].present,
            !tbl_entries(old(self).tables@, c1 as int)[page_index(page, 1)].huge,
            tbl_entries(old(self).tables@, c1 as int)[page_index(page, 1)].frame == c2,
            tbl_entries(old(self).tables@, c2 as int)[page_index(page, 2)].present,
            !tbl_entries(old(self).tables@, c2 as int)[page_index(page, 2)].huge,
            tbl_entries(old(self).tables@, c2 as int)[page_index(page, 2)].frame == c3,
            tbl_has(old(self).tables@, c1 as int),
            tbl_has(old(self).tables@, c2 as int),
            tbl_has(old(self).tables@, c3 as int),
            tbl_level(old(self).tables@, c3 as int) == 3,
            !tbl_entries(old(self).tables@, c3 as int)[page_index(page, 3)].present,
        ensures
            final(self).wf(),
            final(self).spec_root() == old(self).spec_root(),
            final(self).table_count() == old(self).table_count(),
            forall|a: int| #[trigger] final(self).is_table(a) <==> old(self).is_table(a),
            final(self).spec_translate_page(page) == Some(frame),
            final(self).spec_leaf_entry(page) == Some(
                PageTableEntry {
                    present: true,
                    writable: flags.writable,
                    user: flags.user,
                    huge: false,
                    frame,
                },
            ),
            forall|p: u64|
                valid_page(p) && p != page ==> #[trigger] final(self).spec_translate_page(p) == old(self).spec_translate_page(p),
            forall|p: u64|
                valid_page(p) && p != page ==> #[trigger] final(self).spec_leaf_entry(p) == old(self).spec_leaf_entry(p),
            forall|p: u64|
                valid_page(p) ==> #[trigger] final(self).spec_path_blocked(p) == old(self).spec_path_blocked(p),
    {
        proof {
            lemma_page_index_bounds(page);
        }
        let i3 = ((page >> 12) & 0x1ff) as usize;
        let ghost t3 = self.tables@;
        let ghost i0 = page_index(page, 0);
        let ghost i1 = page_index(page, 1);
        let ghost i2 = page_index(page, 2);
        let le = PageTableEntry {
            present: true,
            writable: flags.writable,
            user: flags.user,
            huge: false,
            frame,
        };
        let slot = &mut self.tables[k3];
        slot.table.set_entry(i3, le);
        let ghost t4 = self.tables@;
        proof {
            assert(t4 == t3.update(k3 as int, t4[k3 as int]));
            assert(t4[k3 as int].addr == c3 && t4[k3 as int].level@ == 3);
            lemma_lookup_update(t3, k3 as int, t4[k3 as int]);
            assert(tbl_entries(t4, c3 as int) == tbl_entries(t3, c3 as int).update(i3 as int, le));
            // Well-formedness: only a depth-three node's entries changed,
            // which no pointer or injectivity clause constrains.
            assert forall|i: int| 0 <= i < t4.len() implies t4[i].addr == t3[i].addr && (
            #[trigger] t4[i]).level@ == t3[i].level@ && (i != k3 as int ==> t4[i] == t3[i]) by {}
            assert forall|i: int, j: int| 0 <= i < j < t4.len() implies (#[trigger] t4[i]).addr != (
            #[trigger] t4[j]).addr by {
                assert(t3[i].addr != t3[j].addr);
            }
            assert forall|i: int| 0 <= i < t4.len() implies (#[trigger] t4[i]).table.wf() by {
                if i != k3 as int {
                    assert(t4[i] == t3[i]);
                }
            }
            assert forall|i: int, j: int|
                0 <= i < t4.len() && (#[trigger] t4[i]).level@ < 3 && 0 <= j < 512 && (
                #[trigger] t4[i].table.entries@[j]).present && !t4[i].table.entries@[j].huge implies tbl_has(
                t4,
                t4[i].table.entries@[j].frame as int,
            ) && tbl_level(t4, t4[i].table.entries@[j].frame as int) == t4[i].level@ + 1 by {
                assert(t4[i] == t3[i]);
                let e = t3[i].table.entries@[j];
                assert(tbl_has(t3, e.frame as int) && tbl_level(t3, e.frame as int) == t3[i].level@
                    + 1);
                assert(tbl_entries(t4, e.frame as int) == if e.frame == c3 {
                    tbl_entries(t4, c3 as int)
                } else {
                    tbl_entries(t3, e.frame as int)
                });
                assert(tbl_has(t4, e.frame as int));
                assert(tbl_level(t4, e.frame as int) == tbl_level(t3, e.frame as int));
            }
            assert forall|i1: int, j1: int, i2x: int, j2: int|
                {
                    &&& 0 <= i1 < t4.len()
                    &&& 0 <= i2x < t4.len()
                    &&& t4[i1].level@ < 3
                    &&& t4[i2x].level@ < 3
                    &&& 0 <= j1 < 512
                    &&& 0 <= j2 < 512
                    &&& (#[trigger] t4[i1].table.entries@[j1]).present
                    &&& !t4[i1].table.entries@[j1].huge
                    &&& (#[trigger] t4[i2x].table.entries@[j2]).present
                    &&& !t4[i2x].table.entries@[j2].huge
                    &&& t4[i1].table.entries@[j1].frame == t4[i2x].table.entries@[j2].frame
                } implies i1 == i2x && j1 == j2 by {
                assert(t4[i1] == t3[i1] && t4[i2x] == t3[i2x]);
            }
            assert(self.wf());
            // The mapped page now translates to its frame.
            assert(tbl_entries(t4, root as int) == tbl_entries(t3, root as int));
            assert(tbl_entries(t4, c1 as int) == tbl_entries(t3, c1 as int));
            assert(tbl_entries(t4, c2 as int) == tbl_entries(t3, c2 as int));
            assert(tbl_entries(t4, c3 as int)[i3 as int] == le);
            assert(self.spec_translate_page(page) == Some(frame));
            // Every other valid page walks exactly as before: a walk can
            // meet the changed node only at its own depth, and two pages
            // sharing the whole path and leaf index are the same page.
            assert forall|p: u64| valid_page(p) && p != page implies {
                &&& #[trigger] self.spec_translate_page(p) == old(self).spec_translate_page(p)
                &&& self.spec_leaf_entry(p) == old(self).spec_leaf_entry(p)
                &&& self.spec_path_blocked(p) == old(self).spec_path_blocked(p)
            } by {
                lemma_page_index_bounds(p);
                let p0 = page_index(p, 0);
                let p1 = page_index(p, 1);
                let p2 = page_index(p, 2);
                let p3 = page_index(p, 3);
                let oe0 = tbl_entries(t3, root as int)[p0];
                if oe0.present && !oe0.huge && tbl_has(t3, oe0.frame as int) {
                    assert(tbl_level(t3, oe0.frame as int) == 1);
                    assert(tbl_entries(t4, oe0.frame as int) == tbl_entries(t3, oe0.frame as int));
                    let oe1 = tbl_entries(t3, oe0.frame as int)[p1];
                    if oe1.present && !oe1.huge && tbl_has(t3, oe1.frame as int) {
                        assert(tbl_level(t3, oe1.frame as int) == 2);
                        assert(tbl_entries(t4, oe1.frame as int) == tbl_entries(
                            t3,
                            oe1.frame as int,
                        ));
                        let oe2 = tbl_entries(t3, oe1.frame as int)[p2];
                        if oe2.present && !oe2.huge && tbl_has(t3, oe2.frame as int) {
                            assert(tbl_level(t3, oe2.frame as int) == 3);
                            if oe2.frame == c3 && p3 == i3 as int {
                                // The whole path coincides with the one
                                // just written: the pages are equal.
                                let ka = tbl_idx(t3, oe1.frame as int);
                                let kb = tbl_idx(t3, c2 as int);
                                assert(t3[ka].table.entries@[p2] == oe2);
                                assert(t3[kb].table.entries@[i2].frame == c3);
                                assert(ka == kb && p2 == i2);
                                assert(oe1.frame == c2);
                                let kc = tbl_idx(t3, oe0.frame as int);
                                let kd = tbl_idx(t3, c1 as int);
                                assert(t3[kc].table.entries@[p1] == oe1);
                                assert(t3[kd].table.entries@[i1].frame == c2);
                                assert(kc == kd && p1 == i1);
                                assert(oe0.frame == c1);
                                let ke = tbl_idx(t3, root as int);
                                assert(t3[ke].table.entries@[p0].frame == c1);
                                assert(t3[ke].table.entries@[i0].frame == c1);
                                assert(p0 == i0);
                                assert(p == page) by (bit_vector)
                                    requires
                                        p % 4096 == 0,
                                        page % 4096 == 0,
                                        p < 0x1_0000_0000_0000,
                                        page < 0x1_0000_0000_0000,
                                        (p >> 39) & 0x1ff == (page >> 39) & 0x1ff,
                                        (p >> 30) & 0x1ff == (page >> 30) & 0x1ff,
                                        (p >> 21) & 0x1ff == (page >> 21) & 0x1ff,
                                        (p >> 12) & 0x1ff == (page >> 12) & 0x1ff,
                                ;
                                assert(false);
                            } else {
                                assert(tbl_entries(t4, oe2.frame as int)[p3] == tbl_entries(
                                    t3,
                                    oe2.frame as int,
                                )[p3]);
                            }
                        }
                    }
                }
            }
            assert forall|p: u64| valid_page(p) && p != page implies #[trigger] self.spec_leaf_entry(
                p,
            ) == old(self).spec_leaf_entry(p) by {
                assert(self.spec_translate_page(p) == old(self).spec_translate_page(p));
            }
            assert forall|p: u64| valid_page(p) implies #[trigger] self.spec_path_blocked(p) == old(self).spec_path_blocked(p) by {
                if p != page {
                    assert(self.spec_translate_page(p) == old(self).spec_translate_page(p));
                } else {
                    lemma_page_index_bounds(p);
                    assert(tbl_entries(t4, root as int) == tbl_entries(t3, root as int));
                }
            }
        }
    }

    /// Writes a huge-page entry into the depth-one node in slot `k1`.
    /// Afterwards every valid page sharing the top eighteen index bits
    /// with `page` translates through the huge mapping; nothing else
    /// moves.
    #[verifier::rlimit(100)]
    fn install_huge(
        &mut self,
        k1: usize,
        page: u64,
        frame: u64,
        flags: PageFlags,
        Ghost(root): Ghost<u64>,
        Ghost(c1): Ghost<u64>,
    )
        requires
            old(self).wf(),
            page % 0x4000_0000 == 0,
            page < 0x1_0000_0000_0000,
            root == old(self).spec_root(),
            k1 < old(self).tables@.len(),
            old(self).tables@[k1 as int].addr == c1,
            tbl_idx(old(self).tables@, c1 as int) == k1 as int,
            tbl_entries(old(self).tables@, root as int)[page_index(page, 0)].present,
            !tbl_entries(old(self).tables@, root as int)[page_index(page, 0)].huge,
            tbl_entries(old(self).tables@, root as int)[page_index(page, 0)].frame == c1,
            tbl_has(old(self).tables@, c1 as int),
            tbl_level(old(self).tables@, c1 as int) == 1,
            !tbl_entries(old(self).tables@, c1 as int)[page_index(page, 1)].present,
        ensures
            final(self).wf(),
            final(self).spec_root() == old(self).spec_root(),
            final(self).table_count() == old(self).table_count(),
            forall|a: int| #[trigger] final(self).is_table(a) <==> old(self).is_table(a),
            forall|p: u64|
                valid_page(p) && p >> 30 == page >> 30 ==> #[trigger] final(self).spec_translate_page(p) == Some((frame + p % 0x4000_0000) as u64),
            forall|p: u64|
                valid_page(p) && p >> 30 != page >> 30 ==> #[trigger] final(self).spec_translate_page(p) == old(self).spec_translate_page(p),
            forall|p: u64|
                valid_page(p) && p >> 30 == page >> 30 ==> #[trigger] final(self).spec_path_blocked(p),
            forall|p: u64|
                valid_page(p) && p >> 30 != page >> 30 ==> #[trigger] final(self).spec_path_blocked(p) == old(self).spec_path_blocked(p) && final(self).spec_gig_entry_present(p) == old(self).spec_gig_entry_present(p),
            forall|p: u64|
                valid_page(p) ==> #[trigger] final(self).spec_leaf_entry(p) == old(self).spec_leaf_entry(p),
    {
        proof {
            lemma_page_index_bounds(page);
        }
        let i1 = ((page >> 30) & 0x1ff) as usize;
        let ghost t3 = self.tables@;
        let ghost i0 = page_index(page, 0);
        let he = PageTableEntry {
            present: true,
            writable: flags.writable,
            user: flags.user,
            huge: true,
            frame,
        };
        let slot = &mut self.tables[k1];
        slot.table.set_entry(i1, he);
        let ghost t4 = self.tables@;
        proof {
            assert(t4 == t3.update(k1 as int, t4[k1 as int]));
            assert(t4[k1 as int].addr == c1 && t4[k1 as int].level@ == 1);
            lemma_lookup_update(t3, k1 as int, t4[k1 as int]);
            assert(tbl_entries(t4, c1 as int) == tbl_entries(t3, c1 as int).update(i1 as int, he));
            assert forall|i: int| 0 <= i < t4.len() implies t4[i].addr == t3[i].addr && (
            #[trigger] t4[i]).level@ == t3[i].level@ && (i != k1 as int ==> t4[i] == t3[i]) by {}
            assert forall|i: int, j: int| 0 <= i < j < t4.len() implies (#[trigger] t4[i]).addr != (
            #[trigger] t4[j]).addr by {
                assert(t3[i].addr != t3[j].addr);
            }
            assert forall|i: int| 0 <= i < t4.len() implies (#[trigger] t4[i]).table.wf() by {
                if i != k1 as int {
                    assert(t4[i] == t3[i]);
                }
            }
            // The new entry is huge, so neither the pointer nor the
            // injectivity clause constrains it.
            assert forall|i: int, j: int|
                0 <= i < t4.len() && (#[trigger] t4[i]).level@ < 3 && 0 <= j < 512 && (
                #[trigger] t4[i].table.entries@[j]).present && !t4[i].table.entries@[j].huge implies tbl_has(
                t4,
                t4[i].table.entries@[j].frame as int,
            ) && tbl_level(t4, t4[i].table.entries@[j].frame as int) == t4[i].level@ + 1 by {
                let e = t4[i].table.entries@[j];
                assert(e == t3[i].table.entries@[j]);
                assert(tbl_has(t3, e.frame as int) && tbl_level(t3, e.frame as int) == t3[i].level@
                    + 1);
                assert(tbl_entries(t4, e.frame as int) == if e.frame == c1 {
                    tbl_entries(t4, c1 as int)
                } else {
                    tbl_entries(t3, e.frame as int)
                });
                assert(tbl_has(t4, e.frame as int));
                assert(tbl_level(t4, e.frame as int) == tbl_level(t3, e.frame as int));
            }
            assert forall|i1x: int, j1: int, i2x: int, j2: int|
                {
                    &&& 0 <= i1x < t4.len()
                    &&& 0 <= i2x < t4.len()
                    &&& t4[i1x].level@ < 3
                    &&& t4[i2x].level@ < 3
                    &&& 0 <= j1 < 512
                    &&& 0 <= j2 < 512
                    &&& (#[trigger] t4[i1x].table.entries@[j1]).present
                    &&& !t4[i1x].table.entries@[j1].huge
                    &&& (#[trigger] t4[i2x].table.entries@[j2]).present
                    &&& !t4[i2x].table.entries@[j2].huge
                    &&& t4[i1x].table.entries@[j1].frame == t4[i2x].table.entries@[j2].frame
                } implies i1x == i2x && j1 == j2 by {
                assert(t4[i1x].table.entries@[j1] == t3[i1x].table.entries@[j1]);
                assert(t4[i2x].table.entries@[j2] == t3[i2x].table.entries@[j2]);
            }
            assert(self.wf());
            assert(tbl_entries(t4, root as int) == tbl_entries(t3, root as int));
            // Pages under the huge entry translate through it; all other
            // walks read only untouched entries.
            assert forall|p: u64| valid_page(p) && p >> 30 == page >> 30 implies {
                &&& #[trigger] self.spec_translate_page(p) == Some((frame + p % 0x4000_0000) as u64)
                &&& self.spec_path_blocked(p)
                &&& self.spec_leaf_entry(p) == old(self).spec_leaf_entry(p)
            } by {
                lemma_page_index_bounds(p);
                assert((p >> 39) & 0x1ff == (page >> 39) & 0x1ff && (p >> 30) & 0x1ff == (page
                    >> 30) & 0x1ff) by (bit_vector)
                    requires
                        p >> 30 == page >> 30,
                ;
                assert(tbl_entries(t4, root as int)[page_index(p, 0)].frame == c1);
                assert(tbl_entries(t4, c1 as int)[page_index(p, 1)] == he);
                assert(tbl_entries(t3, c1 as int)[page_index(p, 1)] == tbl_entries(
                    t3,
                    c1 as int,
                )[i1 as int]);
            }
            assert forall|p: u64| valid_page(p) && p >> 30 != page >> 30 implies {
                &&& #[trigger] self.spec_translate_page(p) == old(self).spec_translate_page(p)
                &&& self.spec_path_blocked(p) == old(self).spec_path_blocked(p)
                &&& self.spec_gig_entry_present(p) == old(self).spec_gig_entry_present(p)
                &&& self.spec_leaf_entry(p) == old(self).spec_leaf_entry(p)
            } by {
                lemma_page_index_bounds(p);
                let p0 = page_index(p, 0);
                let p1 = page_index(p, 1);
                let oe0 = tbl_entries(t3, root as int)[p0];
                if oe0.present && !oe0.huge && tbl_has(t3, oe0.frame as int) {
                    assert(tbl_level(t3, oe0.frame as int) == 1);
                    if oe0.frame == c1 && p1 == i1 as int {
                        // Both the root index and the depth-one index
                        // match the huge mapping's: contradiction.
                        let ke = tbl_idx(t3, root as int);
                        assert(t3[ke].table.entries@[p0].frame == c1);
                        assert(t3[ke].table.entries@[i0].frame == c1);
                        assert(p0 == i0);
                        assert(p >> 30 == page >> 30) by (bit_vector)
                            requires
                                (p >> 39) & 0x1ff == (page >> 39) & 0x1ff,
                                (p >> 30) & 0x1ff == (page >> 30) & 0x1ff,
                                p < 0x1_0000_0000_0000,
                                page < 0x1_0000_0000_0000,
                        ;
                        assert(false);
                    } else {
                        assert(tbl_entries(t4, oe0.frame as int)[p1] == tbl_entries(
                            t3,
                            oe0.frame as int,
                        )[p1]);
                        let oe1 = tbl_entries(t3, oe0.frame as int)[p1];
                        if oe1.present && !oe1.huge && tbl_has(t3, oe1.frame as int) {
                            assert(tbl_level(t3, oe1.frame as int) == 2);
                            assert(tbl_entries(t4, oe1.frame as int) == tbl_entries(
                                t3,
                                oe1.frame as int,
                            ));
                            let oe2 = tbl_entries(t3, oe1.frame as int)[page_index(p, 2)];
                            if oe2.present && !oe2.huge && tbl_has(t3, oe2.frame as int) {
                                assert(tbl_level(t3, oe2.frame as int) == 3);
                                assert(tbl_entries(t4, oe2.frame as int) == tbl_entries(
                                    t3,
                                    oe2.frame as int,
                                ));
                            }
                        }
                    }
                }
            }
            assert forall|p: u64| valid_page(p) && p >> 30 == page >> 30 implies #[trigger] self.spec_path_blocked(
                p,
            ) by {
                assert(self.spec_translate_page(p) == Some((frame + p % 0x4000_0000) as u64));
            }
            assert forall|p: u64| valid_page(p) && p >> 30 != page >> 30 implies #[trigger] self.spec_path_blocked(
                p,
            ) == old(self).spec_path_blocked(p) && self.spec_gig_entry_present(p) == old(self).spec_gig_entry_present(p) by {
                assert(self.spec_translate_page(p) == old(self).spec_translate_page(p));
            }
            assert forall|p: u64| valid_page(p) implies #[trigger] self.spec_leaf_entry(p) == old(self).spec_leaf_entry(p) by {
                if p >> 30 == page >> 30 {
                    assert(self.spec_translate_page(p) == Some((frame + p % 0x4000_0000) as u64));
                } else {
                    assert(self.spec_translate_page(p) == old(self).spec_translate_page(p));
                }
            }
        }
    }

    /// Maps one 1 GiB huge page: the depth-one entry on `page`'s path is
    /// written with the huge bit set, so the whole gigabyte translates
    /// at once. A present entry there is a conflict; the huge mapping is
    /// only ever installed over an absent one.
    pub fn map_huge_1g(
        &mut self,
        alloc: &mut PageTableFrameAllocator,
        page: u64,
        frame: u64,
        flags: PageFlags,
    ) -> (r: Result<(), MapError>)
        requires
            old(self).wf(),
            page % 0x4000_0000 == 0,
            page < 0x1_0000_0000_0000,
            old(alloc).inv(),
            crate::mem::disjoint_usable(old(alloc).map_view()),
            old(self).fresh_frames(*old(alloc)),
        ensures
            final(self).wf(),
            final(alloc).inv(),
            final(alloc).map_view() == old(alloc).map_view(),
            final(self).spec_root() == old(self).spec_root(),
            final(self).fresh_frames(*final(alloc)),
            final(alloc).position() - old(alloc).position() == final(self).table_count() - old(self).table_count(),
            old(self).table_count() <= final(self).table_count() <= old(self).table_count() + 1,
            forall|a: int| old(self).is_table(a) ==> final(self).is_table(a),
            forall|p: u64|
                valid_page(p) && p >> 30 != page >> 30 ==> #[trigger] final(self).spec_path_blocked(p) == old(self).spec_path_blocked(p) && final(self).spec_gig_entry_present(p) == old(self).spec_gig_entry_present(p),
            forall|p: u64|
                valid_page(p) ==> #[trigger] final(self).spec_leaf_entry(p) == old(self).spec_leaf_entry(p),
            match r {
                Result::Ok(_) => {
                    &&& forall|p: u64|
                        valid_page(p) && p >> 30 == page >> 30 ==> #[trigger] final(self).spec_translate_page(p) == Some((frame + p % 0x4000_0000) as u64)
                    &&& forall|p: u64|
                        valid_page(p) && p >> 30 != page >> 30 ==> #[trigger] final(self).spec_translate_page(p) == old(self).spec_translate_page(p)
                    &&& forall|p: u64|
                        valid_page(p) && p >> 30 == page >> 30 ==> #[trigger] old(self).spec_translate_page(p) is None
                    &&& forall|p: u64|
                        valid_page(p) && p >> 30 == page >> 30 ==> #[trigger] final(self).spec_path_blocked(p)
                },
                Result::Err(MapError::PageAlreadyMapped(_)) => {
                    &&& old(self).spec_gig_entry_present(page)
                    &&& *final(self) == *old(self)
                    &&& *final(alloc) == *old(alloc)
                },
                Result::Err(MapError::ParentEntryHugePage) => {
                    &&& old(self).spec_path_blocked(page)
                    &&& *final(self) == *old(self)
                    &&& *final(alloc) == *old(alloc)
                },
                Result::Err(MapError::FrameAllocationFailed) => {
                    &&& final(alloc).position() == final(alloc).stream().len()
                    &&& forall|p: u64|
                        #[trigger] final(self).spec_translate_page(p) == old(self).spec_translate_page(p)
                },
            },
    {
        proof {
            lemma_page_index_bounds(page);
        }
        let i0 = ((page >> 39) & 0x1ff) as usize;
        let i1 = ((page >> 30) & 0x1ff) as usize;
        let root = self.root;
        let ghost s0 = *self;
        let c1 = match self.ensure_child(alloc, root, i0, flags.user) {
            Ok(c) => c,
            Err(e) => {
                proof {
                    alloc.lemma_cursor_bounds();
                }
                return Err(e);
            },
        };
        let ghost s1 = *self;
        let k1 = match self.find_table(c1) {
            Some(k) => k,
            None => {
                proof {
                    assert(false);
                }
                return Err(MapError::FrameAllocationFailed);
            },
        };
        proof {
            assert(tbl_idx(s1.tables@, c1 as int) == k1 as int);
        }
        let e1 = self.tables[k1].table.entries[i1];
        if e1.present {
            proof {
                assert(e1 == tbl_entries(s1.tables@, c1 as int)[i1 as int]);
                if !tbl_entries(s0.tables@, root as int)[i0 as int].present {
                    assert(!tbl_entries(s1.tables@, c1 as int)[i1 as int].present);
                    assert(false);
                }
                assert(s1 == s0);
            }
            return Err(MapError::PageAlreadyMapped(e1.frame));
        }
        proof {
            // Nothing under this gigabyte translated before: every such
            // page's walk runs into the very entry found absent here.
            if tbl_entries(s0.tables@, root as int)[i0 as int].present {
                assert(s1 == s0);
            }
            assert forall|p: u64| valid_page(p) && p >> 30 == page >> 30 implies s0.spec_translate_page(
                p,
            ) is None by {
                lemma_page_index_bounds(p);
                assert((p >> 39) & 0x1ff == (page >> 39) & 0x1ff && (p >> 30) & 0x1ff == (page
                    >> 30) & 0x1ff) by (bit_vector)
                    requires
                        p >> 30 == page >> 30,
                ;
                let oe0 = tbl_entries(s0.tables@, root as int)[i0 as int];
                if oe0.present {
                    assert(s1 == s0);
                    assert(!oe0.huge);
                    assert(oe0.frame == c1);
                    assert(!tbl_entries(s0.tables@, c1 as int)[i1 as int].present);
                }
            }
        }
        self.install_huge(k1, page, frame, flags, Ghost(root), Ghost(c1));
        Ok(())
    }

    /// Writes a huge-page entry into the depth-two node in slot `k2`.
    /// Afterwards every valid page sharing the top twenty-seven index
    /// bits with `page` translates through the huge mapping; nothing
    /// else moves.
    #[verifier::rlimit(100)]
    fn install_huge_2m(
        &mut self,
        k2: usize,
        page: u64,
        frame: u64,
        flags: PageFlags,
        Ghost(root): Ghost<u64>,
        Ghost(c1): Ghost<u64>,
        Ghost(c2): Ghost<u64>,
    )
        requires
            old(self).wf(),
            page % 0x20_0000 == 0,
            page < 0x1_0000_0000_0000,
            root == old(self).spec_root(),
            k2 < old(self).tables@.len(),
            old(self).tables@[k2 as int].addr == c2,
            tbl_idx(old(self).tables@, c2 as int) == k2 as int,
            tbl_entries(old(self).tables@, root as int)[page_index(page, 0)].present,
            !tbl_entries(old(self).tables@, root as int)[page_index(page, 0)].huge,
            tbl_entries(old(self).tables@, root as int)[page_index(page, 0)].frame == c1,
            tbl_has(old(self).tables@, c1 as int),
            tbl_level(old(self).tables@, c1 as int) == 1,
            tbl_entries(old(self).tables@, c1 as int)[page_index(page, 1)].present,
            !tbl_entries(old(self).tables@, c1 as int)[page_index(page, 1)].huge,
            tbl_entries(old(self).tables@, c1 as int)[page_index(page, 1)].frame == c2,
            tbl_has(old(self).tables@, c2 as int),
            tbl_level(old(self).tables@, c2 as int) == 2,
            !tbl_entries(old(self).tables@, c2 as int)[page_index(page, 2)].present,
        ensures
            final(self).wf(),
            final(self).spec_root() == old(self).spec_root(),
            final(self).table_count() == old(self).table_count(),
            forall|a: int| #[trigger] final(self).is_table(a) <==> old(self).is_table(a),
            forall|p: u64|
                valid_page(p) && p >> 21 == page >> 21 ==> #[trigger] final(self).spec_translate_page(p) == Some((frame + p % 0x20_0000) as u64),
            forall|p: u64|
                valid_page(p) && p >> 21 != page >> 21 ==> #[trigger] final(self).spec_translate_page(p) == old(self).spec_translate_page(p),
            forall|p: u64|
                valid_page(p) && p >> 21 == page >> 21 ==> #[trigger] final(self).spec_path_blocked(p),
            forall|p: u64|
                valid_page(p) && p >> 21 != page >> 21 ==> #[trigger] final(self).spec_path_blocked(p) == old(self).spec_path_blocked(p) && final(self).spec_meg_entry_present(p) == old(self).spec_meg_entry_present(p),
            forall|p: u64|
                valid_page(p) ==> #[trigger] final(self).spec_leaf_entry(p) == old(self).spec_leaf_entry(p),
    {
        proof {
            lemma_page_index_bounds(page);
        }
        let i2 = ((page >> 21) & 0x1ff) as usize;
        let ghost t3 = self.tables@;
        let ghost i0 = page_index(page, 0);
        let ghost i1 = page_index(page, 1);
        let he = PageTableEntry {
            present: true,
            writable: flags.writable,
            user: flags.user,
            huge: true,
            frame,
        };
        let slot = &mut self.tables[k2];
        slot.table.set_entry(i2, he);
        let ghost t4 = self.tables@;
        proof {
            assert(t4 == t3.update(k2 as int, t4[k2 as int]));
            assert(t4[k2 as int].addr == c2 && t4[k2 as int].level@ == 2);
            lemma_lookup_update(t3, k2 as int, t4[k2 as int]);
            assert(tbl_entries(t4, c2 as int) == tbl_entries(t3, c2 as int).update(i2 as int, he));
            assert forall|i: int| 0 <= i < t4.len() implies t4[i].addr == t3[i].addr && (
            #[trigger] t4[i]).level@ == t3[i].level@ && (i != k2 as int ==> t4[i] == t3[i]) by {}
            assert forall|i: int, j: int| 0 <= i < j < t4.len() implies (#[trigger] t4[i]).addr != (
            #[trigger] t4[j]).addr by {
                assert(t3[i].addr != t3[j].addr);
            }
            assert forall|i: int| 0 <= i < t4.len() implies (#[trigger] t4[i]).table.wf() by {
                if i != k2 as int {
                    assert(t4[i] == t3[i]);
                }
            }
            // The new entry is huge, so neither the pointer nor the
            // injectivity clause constrains it.
            assert forall|i: int, j: int|
                0 <= i < t4.len() && (#[trigger] t4[i]).level@ < 3 && 0 <= j < 512 && (
                #[trigger] t4[i].table.entries@[j]).present && !t4[i].table.entries@[j].huge implies tbl_has(
                t4,
                t4[i].table.entries@[j].frame as int,
            ) && tbl_level(t4, t4[i].table.entries@[j].frame as int) == t4[i].level@ + 1 by {
                let e = t4[i].table.entries@[j];
                assert(e == t3[i].table.entries@[j]);
                assert(tbl_has(t3, e.frame as int) && tbl_level(t3, e.frame as int) == t3[i].level@
                    + 1);
                assert(tbl_entries(t4, e.frame as int) == if e.frame == c2 {
                    tbl_entries(t4, c2 as int)
                } else {
                    tbl_entries(t3, e.frame as int)
                });
                assert(tbl_has(t4, e.frame as int));
                assert(tbl_level(t4, e.frame as int) == tbl_level(t3, e.frame as int));
            }
            assert forall|i1x: int, j1: int, i2x: int, j2: int|
                {
                    &&& 0 <= i1x < t4.len()
                    &&& 0 <= i2x < t4.len()
                    &&& t4[i1x].level@ < 3
                    &&& t4[i2x].level@ < 3
                    &&& 0 <= j1 < 512
                    &&& 0 <= j2 < 512
                    &&& (#[trigger] t4[i1x].table.entries@[j1]).present
                    &&& !t4[i1x].table.entries@[j1].huge
                    &&& (#[trigger] t4[i2x].table.entries@[j2]).present
                    &&& !t4[i2x].table.entries@[j2].huge
                    &&& t4[i1x].table.entries@[j1].frame == t4[i2x].table.entries@[j2].frame
                } implies i1x == i2x && j1 == j2 by {
                assert(t4[i1x].table.entries@[j1] == t3[i1x].table.entries@[j1]);
                assert(t4[i2x].table.entries@[j2] == t3[i2x].table.entries@[j2]);
            }
            assert(self.wf());
            assert(tbl_entries(t4, root as int) == tbl_entries(t3, root as int));
            assert(tbl_entries(t4, c1 as int) == tbl_entries(t3, c1 as int));
            // Pages under the huge entry translate through it; all other
            // walks read only untouched entries.
            assert forall|p: u64| valid_page(p) && p >> 21 == page >> 21 implies {
                &&& #[trigger] self.spec_translate_page(p) == Some((frame + p % 0x20_0000) as u64)
                &&& self.spec_path_blocked(p)
                &&& self.spec_leaf_entry(p) == old(self).spec_leaf_entry(p)
            } by {
                lemma_page_index_bounds(p);
                assert((p >> 39) & 0x1ff == (page >> 39) & 0x1ff && (p >> 30) & 0x1ff == (page
                    >> 30) & 0x1ff && (p >> 21) & 0x1ff == (page >> 21) & 0x1ff) by (bit_vector)
                    requires
                        p >> 21 == page >> 21,
                ;
                assert(tbl_entries(t4, root as int)[page_index(p, 0)].frame == c1);
                assert(tbl_entries(t4, c1 as int)[page_index(p, 1)].frame == c2);
                assert(tbl_entries(t4, c2 as int)[page_index(p, 2)] == he);
                assert(tbl_entries(t3, c2 as int)[page_index(p, 2)] == tbl_entries(
                    t3,
                    c2 as int,
                )[i2 as int]);
            }
            assert forall|p: u64| valid_page(p) && p >> 21 != page >> 21 implies {
                &&& #[trigger] self.spec_translate_page(p) == old(self).spec_translate_page(p)
                &&& self.spec_path_blocked(p) == old(self).spec_path_blocked(p)
                &&& self.spec_meg_entry_present(p) == old(self).spec_meg_entry_present(p)
                &&& self.spec_leaf_entry(p) == old(self).spec_leaf_entry(p)
            } by {
                lemma_page_index_bounds(p);
                let p0 = page_index(p, 0);
                let p1 = page_index(p, 1);
                let p2 = page_index(p, 2);
                let oe0 = tbl_entries(t3, root as int)[p0];
                if oe0.present && !oe0.huge && tbl_has(t3, oe0.frame as int) {
                    assert(tbl_level(t3, oe0.frame as int) == 1);
                    assert(tbl_entries(t4, oe0.frame as int) == tbl_entries(t3, oe0.frame as int));
                    let oe1 = tbl_entries(t3, oe0.frame as int)[p1];
                    if oe1.present && !oe1.huge && tbl_has(t3, oe1.frame as int) {
                        assert(tbl_level(t3, oe1.frame as int) == 2);
                        if oe1.frame == c2 && p2 == i2 as int {
                            // The whole two-level path coincides with
                            // the huge mapping's: contradiction.
                            let ka = tbl_idx(t3, oe0.frame as int);
                            let kb = tbl_idx(t3, c1 as int);
                            assert(t3[ka].table.entries@[p1] == oe1);
                            assert(t3[kb].table.entries@[i1].frame == c2);
                            assert(ka == kb && p1 == i1);
                            assert(oe0.frame == c1);
                            let ke = tbl_idx(t3, root as int);
                            assert(t3[ke].table.entries@[p0].frame == c1);
                            assert(t3[ke].table.entries@[i0].frame == c1);
                            assert(p0 == i0);
                            assert(p >> 21 == page >> 21) by (bit_vector)
                                requires
                                    (p >> 39) & 0x1ff == (page >> 39) & 0x1ff,
                                    (p >> 30) & 0x1ff == (page >> 30) & 0x1ff,
                                    (p >> 21) & 0x1ff == (page >> 21) & 0x1ff,
                                    p < 0x1_0000_0000_0000,
                                    page < 0x1_0000_0000_0000,
                            ;
                            assert(false);
                        } else {
                            assert(tbl_entries(t4, oe1.frame as int)[p2] == tbl_entries(
                                t3,
                                oe1.frame as int,
                            )[p2]);
                            let oe2 = tbl_entries(t3, oe1.frame as int)[p2];
                            if oe2.present && !oe2.huge && tbl_has(t3, oe2.frame as int) {
                                assert(tbl_level(t3, oe2.frame as int) == 3);
                                assert(tbl_entries(t4, oe2.frame as int) == tbl_entries(
                                    t3,
                                    oe2.frame as int,
                                ));
                            }
                        }
                    }
                }
            }
            assert forall|p: u64| valid_page(p) && p >> 21 == page >> 21 implies #[trigger] self.spec_path_blocked(
                p,
            ) by {
                assert(self.spec_translate_page(p) == Some((frame + p % 0x20_0000) as u64));
            }
            assert forall|p: u64| valid_page(p) && p >> 21 != page >> 21 implies #[trigger] self.spec_path_blocked(
                p,
            ) == old(self).spec_path_blocked(p) && self.spec_meg_entry_present(p) == old(self).spec_meg_entry_present(p) by {
                assert(self.spec_translate_page(p) == old(self).spec_translate_page(p));
            }
            assert forall|p: u64| valid_page(p) implies #[trigger] self.spec_leaf_entry(p) == old(self).spec_leaf_entry(p) by {
                if p >> 21 == page >> 21 {
                    assert(self.spec_translate_page(p) == Some((frame + p % 0x20_0000) as u64));
                } else {
                    assert(self.spec_translate_page(p) == old(self).spec_translate_page(p));
                }
            }
        }
    }

    /// Maps one 2 MiB huge page: the depth-two entry on `page`'s path
    /// is written with the huge bit set, so the whole two megabytes
    /// translate at once. A present entry there is a conflict; the huge
    /// mapping is only ever installed over an absent one.
    pub fn map_huge_2m(
        &mut self,
        alloc: &mut PageTableFrameAllocator,
        page: u64,
        frame: u64,
        flags: PageFlags,
    ) -> (r: Result<(), MapError>)
        requires
            old(self).wf(),
            page % 0x20_0000 == 0,
            page < 0x1_0000_0000_0000,
            old(alloc).inv(),
            crate::mem::disjoint_usable(old(alloc).map_view()),
            old(self).fresh_frames(*old(alloc)),
        ensures
            final(self).wf(),
            final(alloc).inv(),
            final(alloc).map_view() == old(alloc).map_view(),
            final(self).spec_root() == old(self).spec_root(),
            final(self).fresh_frames(*final(alloc)),
            final(alloc).position() - old(alloc).position() == final(self).table_count() - old(self).table_count(),
            old(self).table_count() <= final(self).table_count() <= old(self).table_count() + 2,
            forall|a: int| old(self).is_table(a) ==> final(self).is_table(a),
            forall|p: u64|
                valid_page(p) && p >> 21 != page >> 21 ==> #[trigger] final(self).spec_path_blocked(p) == old(self).spec_path_blocked(p) && final(self).spec_meg_entry_present(p) == old(self).spec_meg_entry_present(p),
            forall|p: u64|
                valid_page(p) ==> #[trigger] final(self).spec_leaf_entry(p) == old(self).spec_leaf_entry(p),
            match r {
                Result::Ok(_) => {
                    &&& forall|p: u64|
                        valid_page(p) && p >> 21 == page >> 21 ==> #[trigger] final(self).spec_translate_page(p) == Some((frame + p % 0x20_0000) as u64)
                    &&& forall|p: u64|
                        valid_page(p) && p >> 21 != page >> 21 ==> #[trigger] final(self).spec_translate_page(p) == old(self).spec_translate_page(p)
                    &&& forall|p: u64|
                        valid_page(p) && p >> 21 == page >> 21 ==> #[trigger] old(self).spec_translate_page(p) is None
                    &&& forall|p: u64|
                        valid_page(p) && p >> 21 == page >> 21 ==> #[trigger] final(self).spec_path_blocked(p)
                },
                Result::Err(MapError::PageAlreadyMapped(_)) => {
                    &&& old(self).spec_meg_entry_present(page)
                    &&& *final(self) == *old(self)
                    &&& *final(alloc) == *old(alloc)
                },
                Result::Err(MapError::ParentEntryHugePage) => {
                    &&& old(self).spec_path_blocked(page)
                    &&& *final(self) == *old(self)
                    &&& *final(alloc) == *old(alloc)
                },
                Result::Err(MapError::FrameAllocationFailed) => {
                    &&& final(alloc).position() == final(alloc).stream().len()
                    &&& forall|p: u64|
                        #[trigger] final(self).spec_translate_page(p) == old(self).spec_translate_page(p)
                },
            },
    {
        proof {
            lemma_page_index_bounds(page);
        }
        let i0 = ((page >> 39) & 0x1ff) as usize;
        let i1 = ((page >> 30) & 0x1ff) as usize;
        let i2 = ((page >> 21) & 0x1ff) as usize;
        let root = self.root;
        let ghost s0 = *self;
        let c1 = match self.ensure_child(alloc, root, i0, flags.user) {
            Ok(c) => c,
            Err(e) => {
                proof {
                    alloc.lemma_cursor_bounds();
                }
                return Err(e);
            },
        };
        let ghost s1 = *self;
        let c2 = match self.ensure_child(alloc, c1, i1, flags.user) {
            Ok(c) => c,
            Err(e) => {
                proof {
                    alloc.lemma_cursor_bounds();
                    if !tbl_entries(s0.tables@, root as int)[i0 as int].present {
                        assert(!tbl_entries(s1.tables@, c1 as int)[i1 as int].present);
                    }
                }
                return Err(e);
            },
        };
        let ghost s2 = *self;
        let k2 = match self.find_table(c2) {
            Some(k) => k,
            None => {
                proof {
                    assert(false);
                }
                return Err(MapError::FrameAllocationFailed);
            },
        };
        proof {
            assert(tbl_idx(s2.tables@, c2 as int) == k2 as int);
        }
        let e2 = self.tables[k2].table.entries[i2];
        if e2.present {
            proof {
                assert(e2 == tbl_entries(s2.tables@, c2 as int)[i2 as int]);
                if !tbl_entries(s0.tables@, root as int)[i0 as int].present {
                    assert(!tbl_entries(s1.tables@, c1 as int)[i1 as int].present);
                    assert(!tbl_entries(s2.tables@, c2 as int)[i2 as int].present);
                    assert(false);
                }
                assert(s1 == s0);
                if !tbl_entries(s1.tables@, c1 as int)[i1 as int].present {
                    assert(!tbl_entries(s2.tables@, c2 as int)[i2 as int].present);
                    assert(false);
                }
                assert(s2 == s1);
            }
            return Err(MapError::PageAlreadyMapped(e2.frame));
        }
        proof {
            // Nothing under these two megabytes translated before:
            // every such page's walk runs into the entry found absent.
            if tbl_entries(s0.tables@, root as int)[i0 as int].present {
                assert(s1 == s0);
                if tbl_entries(s1.tables@, c1 as int)[i1 as int].present {
                    assert(s2 == s1);
                }
            }
            assert forall|p: u64| valid_page(p) && p >> 21 == page >> 21 implies s0.spec_translate_page(
                p,
            ) is None by {
                lemma_page_index_bounds(p);
                assert((p >> 39) & 0x1ff == (page >> 39) & 0x1ff && (p >> 30) & 0x1ff == (page
                    >> 30) & 0x1ff && (p >> 21) & 0x1ff == (page >> 21) & 0x1ff) by (bit_vector)
                    requires
                        p >> 21 == page >> 21,
                ;
                let oe0 = tbl_entries(s0.tables@, root as int)[i0 as int];
                if oe0.present {
                    assert(s1 == s0);
                    assert(!oe0.huge);
                    assert(oe0.frame == c1);
                    let oe1 = tbl_entries(s0.tables@, c1 as int)[i1 as int];
                    if oe1.present {
                        assert(s2 == s1);
                        assert(!oe1.huge);
                        assert(oe1.frame == c2);
                        assert(!tbl_entries(s0.tables@, c2 as int)[i2 as int].present);
                    }
                }
            }
            // The walk for such a page in the pre-install state equals
            // the original state's: the intermediate creations changed
            // no translation.
            assert forall|p: u64| valid_page(p) && p >> 21 == page >> 21 implies s2.spec_translate_page(
                p,
            ) is None by {
                assert(s2.spec_translate_page(p) == s1.spec_translate_page(p));
                assert(s1.spec_translate_page(p) == s0.spec_translate_page(p));
            }
        }
        self.install_huge_2m(k2, page, frame, flags, Ghost(root), Ghost(c1), Ghost(c2));
        Ok(())
    }

    /// Maps a frame at the virtual page with the same address.
    pub fn identity_map(
        &mut self,
        alloc: &mut PageTableFrameAllocator,
        frame: u64,
        flags: PageFlags,
        policy: MapPolicy,
    ) -> (r: Result<(), MapError>)
        requires
            old(self).wf(),
            valid_page(frame),
            old(alloc).inv(),
            crate::mem::disjoint_usable(old(alloc).map_view()),
            old(self).fresh_frames(*old(alloc)),
        ensures
            final(self).wf(),
            final(alloc).inv(),
            final(alloc).map_view() == old(alloc).map_view(),
            final(self).spec_root() == old(self).spec_root(),
            final(self).fresh_frames(*final(alloc)),
            final(alloc).position() - old(alloc).position() == final(self).table_count() - old(self).table_count(),
            old(self).table_count() <= final(self).table_count() <= old(self).table_count() + 3,
            forall|a: int| old(self).is_table(a) ==> final(self).is_table(a),
            forall|p: u64|
                valid_page(p) && p != frame ==> #[trigger] final(self).spec_translate_page(p) == old(self).spec_translate_page(p),
            forall|p: u64|
                valid_page(p) ==> #[trigger] final(self).spec_path_blocked(p) == old(self).spec_path_blocked(p),
            forall|p: u64|
                valid_page(p) && p != frame ==> #[trigger] final(self).spec_leaf_entry(p) == old(self).spec_leaf_entry(p),
            match r {
                Result::Ok(_) => {
                    if old(self).spec_translate_page(frame) is None {
                        &&& final(self).spec_translate_page(frame) == Some(frame)
                        &&& final(self).spec_leaf_entry(frame) == Some(
                            PageTableEntry {
                                present: true,
                                writable: flags.writable,
                                user: flags.user,
                                huge: false,
                                frame,
                            },
                        )
                    } else {
                        &&& policy is Tolerant
                        &&& *final(self) == *old(self)
                        &&& *final(alloc) == *old(alloc)
                    }
                },
                Result::Err(MapError::PageAlreadyMapped(f)) => {
                    &&& policy is Strict
                    &&& old(self).spec_translate_page(frame) == Some(f)
                    &&& *final(self) == *old(self)
                    &&& *final(alloc) == *old(alloc)
                },
                Result::Err(MapError::ParentEntryHugePage) => {
                    &&& old(self).spec_path_blocked(frame)
                    &&& *final(self) == *old(self)
                    &&& *final(alloc) == *old(alloc)
                },
                Result::Err(MapError::FrameAllocationFailed) => {
                    final(alloc).position() == final(alloc).stream().len()
                },
            },
    {
        self.map(alloc, frame, frame, flags, policy)
    }
}

/// Appending a slot with a fresh address changes no existing lookup and
/// makes the new address resolvable.
proof fn lemma_lookup_push(tables: Seq<TableSlot>, s: TableSlot)
    requires
        forall|i: int, j: int|
            0 <= i < j < tables.len() ==> (#[trigger] tables[i]).addr != (
            #[trigger] tables[j]).addr,
        forall|i: int| 0 <= i < tables.len() ==> (#[trigger] tables[i]).addr != s.addr,
    ensures
        forall|a: int| #[trigger] tbl_has(tables.push(s), a) <==> tbl_has(tables, a) || a == s.addr,
        forall|a: int|
            tbl_has(tables, a) ==> #[trigger] tbl_entries(tables.push(s), a) == tbl_entries(
                tables,
                a,
            ) && tbl_level(tables.push(s), a) == tbl_level(tables, a),
        tbl_entries(tables.push(s), s.addr as int) == s.table.entries@,
        tbl_level(tables.push(s), s.addr as int) == s.level@,
{
    let t2 = tables.push(s);
    assert(t2[tables.len() as int] == s);
    assert forall|a: int| #[trigger] tbl_has(t2, a) implies tbl_has(tables, a) || a == s.addr by {
        let i = choose|i: int| 0 <= i < t2.len() && (#[trigger] t2[i]).addr == a;
        if i < tables.len() {
            assert(tables[i].addr == a);
        }
    }
    assert forall|a: int| tbl_has(tables, a) || a == s.addr implies #[trigger] tbl_has(
        t2,
        a,
    ) by {
        if tbl_has(tables, a) {
            let i = choose|i: int| 0 <= i < tables.len() && (#[trigger] tables[i]).addr == a;
            assert(t2[i].addr == a);
        } else {
            assert(t2[tables.len() as int].addr == a);
        }
    }
    assert forall|a: int| tbl_has(tables, a) implies #[trigger] tbl_entries(t2, a) == tbl_entries(
        tables,
        a,
    ) && tbl_level(t2, a) == tbl_level(tables, a) by {
        let i = tbl_idx(tables, a);
        assert(0 <= i < tables.len() && tables[i].addr == a);
        assert(t2[i].addr == a);
        assert(tbl_has(t2, a));
        let i2 = tbl_idx(t2, a);
        assert(0 <= i2 < t2.len() && t2[i2].addr == a);
        assert(i2 != tables.len() as int);
        if i2 != i {
            assert(tables[i2].addr == a);
            assert(false);
        }
    }
    assert(tbl_has(t2, s.addr as int));
    let i2 = tbl_idx(t2, s.addr as int);
    assert(0 <= i2 < t2.len() && t2[i2].addr == s.addr);
    if i2 != tables.len() as int {
        assert(tables[i2].addr == s.addr);
        assert(false);
    }
}

/// Replacing the node stored in one slot changes only that address's
/// lookup, and no addresses or levels at all.
proof fn lemma_lookup_update(tables: Seq<TableSlot>, k: int, s: TableSlot)
    requires
        forall|i: int, j: int|
            0 <= i < j < tables.len() ==> (#[trigger] tables[i]).addr != (
            #[trigger] tables[j]).addr,
        0 <= k < tables.len(),
        s.addr == tables[k].addr,
        s.level == tables[k].level,
    ensures
        forall|a: int| #[trigger] tbl_has(tables.update(k, s), a) <==> tbl_has(tables, a),
        forall|a: int|
            tbl_has(tables, a) ==> #[trigger] tbl_level(tables.update(k, s), a) == tbl_level(
                tables,
                a,
            ),
        forall|a: int|
            tbl_has(tables, a) && a != tables[k].addr ==> #[trigger] tbl_entries(
                tables.update(k, s),
                a,
            ) == tbl_entries(tables, a),
        tbl_entries(tables.update(k, s), tables[k].addr as int) == s.table.entries@,
{
    let t2 = tables.update(k, s);
    assert forall|a: int| #[trigger] tbl_has(t2, a) implies tbl_has(tables, a) by {
        let i = choose|i: int| 0 <= i < t2.len() && (#[trigger] t2[i]).addr == a;
        if i == k {
            assert(tables[k].addr == a);
        } else {
            assert(tables[i].addr == a);
        }
    }
    assert forall|a: int| tbl_has(tables, a) implies #[trigger] tbl_has(t2, a) by {
        let i = choose|i: int| 0 <= i < tables.len() && (#[trigger] tables[i]).addr == a;
        if i == k {
            assert(t2[k].addr == a);
        } else {
            assert(t2[i].addr == a);
        }
    }
    assert forall|a: int| tbl_has(tables, a) implies #[trigger] tbl_level(t2, a) == tbl_level(
        tables,
        a,
    ) && (a != tables[k].addr ==> tbl_entries(t2, a) == tbl_entries(tables, a)) by {
        let i = tbl_idx(tables, a);
        assert(0 <= i < tables.len() && tables[i].addr == a);
        assert(tbl_has(t2, a));
        let i2 = tbl_idx(t2, a);
        assert(0 <= i2 < t2.len() && t2[i2].addr == a);
        if i2 != i {
            if i2 == k {
                assert(tables[i].addr == tables[k].addr);
                assert(false);
            } else if i == k {
                assert(tables[i2].addr == tables[k].addr);
                assert(false);
            } else {
                assert(tables[i].addr == tables[i2].addr);
                assert(false);
            }
        }
    }
    assert forall|a: int| tbl_has(tables, a) && a != tables[k].addr implies #[trigger] tbl_entries(
        t2,
        a,
    ) == tbl_entries(tables, a) by {
        assert(tbl_level(t2, a) == tbl_level(tables, a));
    }
    let i2 = tbl_idx(t2, tables[k].addr as int);
    assert(t2[k].addr == tables[k].addr);
    assert(tbl_has(t2, tables[k].addr as int));
    assert(0 <= i2 < t2.len() && t2[i2].addr == tables[k].addr);
    if i2 != k {
        assert(tables[i2].addr == tables[k].addr);
        assert(false);
    }
}

/// A space holding any node at all holds at least one.
pub proof fn lemma_is_table_count(s: AddressSpace, a: int)
    requires
        s.is_table(a),
    ensures
        s.table_count() >= 1,
{
    let i = tbl_idx(s.tables@, a);
    assert(0 <= i < s.tables@.len());
}

/// Every index slice of a page is one of the 512 node slots.
pub proof fn lemma_page_index_bounds(page: u64)
    ensures
        0 <= page_index(page, 0) < 512,
        0 <= page_index(page, 1) < 512,
        0 <= page_index(page, 2) < 512,
        0 <= page_index(page, 3) < 512,
        page_index(page, 0) == ((page >> 39) & 0x1ff) as int,
        page_index(page, 1) == ((page >> 30) & 0x1ff) as int,
        page_index(page, 2) == ((page >> 21) & 0x1ff) as int,
        page_index(page, 3) == ((page >> 12) & 0x1ff) as int,
{
    assert((page >> 39) & 0x1ff < 512 && (page >> 30) & 0x1ff < 512 && (page >> 21) & 0x1ff < 512
        && (page >> 12) & 0x1ff < 512) by (bit_vector);
}

} // verus!
