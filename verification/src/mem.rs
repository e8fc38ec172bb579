//! Firmware memory map and the physical frame allocator.
//!
//! The firmware hands the kernel an ordered sequence of `MemoryDescriptor`
//! records. The allocator filters it down to the usable descriptors, expands
//! each into a run of page-aligned addresses at 4096-byte stride, and yields
//! those addresses one by one behind a monotonic cursor. Frames are never
//! returned: there is no free list by design.

use vstd::prelude::*;

verus! {

/// Granularity of a physical frame in bytes.
pub const PAGE_SIZE: usize = 4096;

/// Memory classification tag of a firmware memory descriptor.
#[derive(Clone, Copy, Debug, PartialEq, Eq, Structural)]
pub enum MemoryType {
    Reserved,
    LoaderCode,
    LoaderData,
    BootServicesCode,
    BootServicesData,
    RuntimeServicesCode,
    RuntimeServicesData,
    Conventional,
    Unusable,
    ACPIReclaim,
    ACPINVS,
    MemoryMappedIO,
    MemoryMappedIOPortSpace,
    PalCode,
    PersistentMemory,
    MaxMemoryType,
}

impl MemoryType {
    /// Only conventional memory counts as free general-purpose memory;
    /// the predicate is closed by intent.
    pub open spec fn spec_is_usable(self) -> bool {
        self is Conventional
    }

    pub fn is_usable(&self) -> (r: bool)
        ensures
            r == self.spec_is_usable(),
    {
        matches!(self, MemoryType::Conventional)
    }

    pub open spec fn spec_as_u32(self) -> u32 {
        match self {
            MemoryType::Reserved => 0,
            MemoryType::LoaderCode => 1,
            MemoryType::LoaderData => 2,
            MemoryType::BootServicesCode => 3,
            MemoryType::BootServicesData => 4,
            MemoryType::RuntimeServicesCode => 5,
            MemoryType::RuntimeServicesData => 6,
            MemoryType::Conventional => 7,
            MemoryType::Unusable => 8,
            MemoryType::ACPIReclaim => 9,
            MemoryType::ACPINVS => 10,
            MemoryType::MemoryMappedIO => 11,
            MemoryType::MemoryMappedIOPortSpace => 12,
            MemoryType::PalCode => 13,
            MemoryType::PersistentMemory => 14,
            MemoryType::MaxMemoryType => 15,
        }
    }

    /// Numeric tag of the descriptor type, as the firmware encodes it.
    pub fn as_u8(&self) -> (r: u32)
        ensures
            r == self.spec_as_u32(),
    {
        match self {
            MemoryType::Reserved => 0,
            MemoryType::LoaderCode => 1,
            MemoryType::LoaderData => 2,
            MemoryType::BootServicesCode => 3,
            MemoryType::BootServicesData => 4,
            MemoryType::RuntimeServicesCode => 5,
            MemoryType::RuntimeServicesData => 6,
            MemoryType::Conventional => 7,
            MemoryType::Unusable => 8,
            MemoryType::ACPIReclaim => 9,
            MemoryType::ACPINVS => 10,
            MemoryType::MemoryMappedIO => 11,
            MemoryType::MemoryMappedIOPortSpace => 12,
            MemoryType::PalCode => 13,
            MemoryType::PersistentMemory => 14,
            MemoryType::MaxMemoryType => 15,
        }
    }
}

impl Default for MemoryType {
    fn default() -> (r: Self)
        ensures
            r is Reserved,
    {
        MemoryType::Reserved
    }
}

/// One record of the firmware memory map. `size` counts 4 KiB pages.
#[derive(Clone, Copy, Debug, PartialEq, Eq, Structural)]
pub struct MemoryDescriptor {
    pub memory_type: MemoryType,
    pub physical_address: usize,
    pub virtual_address: usize,
    pub size: usize,
    pub attributes: u64,
}

/// Attribute bit that marks a region the firmware needs mapped at runtime.
pub const MEMORY_RUNTIME_ATTRIBUTE: u64 = 0x8000000000000000;

impl MemoryDescriptor {
    /// Whether the firmware asks for this region to stay mapped after boot
    /// services end (the runtime attribute bit is set).
    pub open spec fn spec_is_runtime(self) -> bool {
        self.attributes & MEMORY_RUNTIME_ATTRIBUTE != 0
    }

    pub fn is_runtime(&self) -> (r: bool)
        ensures
            r == self.spec_is_runtime(),
    {
        self.attributes & MEMORY_RUNTIME_ATTRIBUTE != 0
    }

    /// The frame addresses this descriptor contributes when usable: its
    /// physical address onward at exact 4096-byte stride, one per page.
    pub open spec fn frames(self) -> Seq<int> {
        Seq::new(self.size as nat, |k: int| self.physical_address + k * 4096)
    }
}

/// A memory map is well formed when no descriptor's byte range overflows
/// the machine word.
pub open spec fn wf_map(map: Seq<MemoryDescriptor>) -> bool {
    forall|i: int|
        0 <= i < map.len() ==> (#[trigger] map[i]).physical_address + map[i].size * 4096
            <= usize::MAX
}

/// Every frame address the allocator will ever yield over `map`, in order:
/// the usable descriptors' frame runs, concatenated front to back.
pub open spec fn frame_stream(map: Seq<MemoryDescriptor>) -> Seq<int>
    decreases map.len(),
{
    if map.len() == 0 {
        Seq::empty()
    } else {
        let head = if map[0].memory_type.spec_is_usable() {
            map[0].frames()
        } else {
            Seq::empty()
        };
        head + frame_stream(map.skip(1))
    }
}

/// The concatenated stream splits at any point `i`: what the first `i`
/// descriptors contribute, then what the rest contribute.
pub proof fn lemma_stream_split(map: Seq<MemoryDescriptor>, i: int)
    requires
        0 <= i <= map.len(),
    ensures
        frame_stream(map) == frame_stream(map.take(i)) + frame_stream(map.skip(i)),
    decreases i,
{
    if i == 0 {
        assert(map.take(0) =~= Seq::<MemoryDescriptor>::empty());
        assert(map.skip(0) =~= map);
        assert(frame_stream(map.take(0)) + frame_stream(map.skip(0)) =~= frame_stream(map));
    } else {
        let rest = map.skip(1);
        lemma_stream_split(rest, i - 1);
        assert(map.take(i).skip(1) =~= rest.take(i - 1));
        assert(map.skip(i) =~= rest.skip(i - 1));
        assert(map.take(i).len() > 0);
        assert(map.take(i)[0] == map[0]);
        let head = if map[0].memory_type.spec_is_usable() {
            map[0].frames()
        } else {
            Seq::<int>::empty()
        };
        assert(frame_stream(map.take(i)) == head + frame_stream(rest.take(i - 1)));
        assert(frame_stream(map) == head + frame_stream(rest));
        assert(frame_stream(map) =~= frame_stream(map.take(i)) + frame_stream(map.skip(i)));
    }
}

/// Taking one more descriptor appends exactly that descriptor's
/// contribution to the stream.
pub proof fn lemma_stream_take_succ(map: Seq<MemoryDescriptor>, i: int)
    requires
        0 <= i < map.len(),
    ensures
        frame_stream(map.take(i + 1)) == frame_stream(map.take(i)) + if map[
            i
        ].memory_type.spec_is_usable() {
            map[i].frames()
        } else {
            Seq::<int>::empty()
        },
    decreases i,
{
    let t = map.take(i + 1);
    lemma_stream_split(t, i);
    assert(t.take(i) =~= map.take(i));
    assert(t.skip(i).len() == 1);
    assert(t.skip(i)[0] == map[i]);
    assert(t.skip(i).skip(1) =~= Seq::<MemoryDescriptor>::empty());
    let head = if map[i].memory_type.spec_is_usable() {
        map[i].frames()
    } else {
        Seq::<int>::empty()
    };
    assert(frame_stream(t.skip(i)) == head + frame_stream(Seq::<MemoryDescriptor>::empty()));
    assert(frame_stream(t.skip(i)) =~= head);
}

/// The whole stream around descriptor `i`: the prefix, descriptor `i`'s
/// own contribution, then the tail.
pub proof fn lemma_stream_decompose(map: Seq<MemoryDescriptor>, i: int)
    requires
        0 <= i < map.len(),
    ensures
        frame_stream(map) == frame_stream(map.take(i)) + (if map[i].memory_type.spec_is_usable() {
            map[i].frames()
        } else {
            Seq::<int>::empty()
        }) + frame_stream(map.skip(i + 1)),
{
    lemma_stream_split(map, i + 1);
    lemma_stream_take_succ(map, i);
}

/// Converts a firmware memory map into a monotonic stream of free physical
/// page frames. The cursor pair `(desc_idx, page_idx)` always rests on the
/// next frame to hand out, past every unusable or empty descriptor.
#[derive(Clone, Debug)]
pub struct PageTableFrameAllocator {
    memory_map: Vec<MemoryDescriptor>,
    desc_idx: usize,
    page_idx: usize,
}

impl PageTableFrameAllocator {
    /// The memory map the allocator draws from.
    pub closed spec fn map_view(self) -> Seq<MemoryDescriptor> {
        self.memory_map@
    }

    /// Every frame address this allocator will ever yield, in order.
    pub open spec fn stream(self) -> Seq<int> {
        frame_stream(self.map_view())
    }

    /// How many frames have been yielded so far; the next call returns
    /// `self.stream()[self.position()]`.
    pub closed spec fn position(self) -> int {
        frame_stream(self.memory_map@.take(self.desc_idx as int)).len() + self.page_idx
    }

    /// Cursor well-formedness: the map does not overflow, and the cursor
    /// rests on a usable page or at the very end.
    pub closed spec fn inv(self) -> bool {
        &&& wf_map(self.memory_map@)
        &&& self.desc_idx <= self.memory_map@.len()
        &&& if self.desc_idx < self.memory_map@.len() {
            &&& self.memory_map@[self.desc_idx as int].memory_type.spec_is_usable()
            &&& self.page_idx < self.memory_map@[self.desc_idx as int].size
        } else {
            self.page_idx == 0
        }
    }

    /// The cursor index never runs past the stream, and rests strictly
    /// inside it exactly while descriptors remain.
    proof fn lemma_position_bounds(self)
        requires
            self.inv(),
        ensures
            self.position() <= self.stream().len(),
            self.desc_idx < self.memory_map@.len() <==> self.position() < self.stream().len(),
    {
        if self.desc_idx < self.memory_map@.len() {
            lemma_stream_decompose(self.memory_map@, self.desc_idx as int);
        } else {
            assert(self.memory_map@.take(self.desc_idx as int) =~= self.memory_map@);
        }
    }

    /// The cursor never runs past the stream.
    pub proof fn lemma_cursor_bounds(self)
        requires
            self.inv(),
        ensures
            0 <= self.position() <= self.stream().len(),
    {
        self.lemma_position_bounds();
    }

    /// Advances `desc_idx` past descriptors that contribute no frames.
    /// The position does not move.
    fn normalize(&mut self)
        requires
            wf_map(old(self).memory_map@),
            old(self).desc_idx <= old(self).memory_map@.len(),
            old(self).page_idx == 0,
        ensures
            final(self).inv(),
            final(self).memory_map@ == old(self).memory_map@,
            final(self).position() == old(self).position(),
            final(self).page_idx == 0,
    {
        while self.desc_idx < self.memory_map.len() && !(self.memory_map[
            self.desc_idx
        ].memory_type.is_usable() && self.memory_map[self.desc_idx].size > 0)
            invariant
                wf_map(self.memory_map@),
                self.desc_idx <= self.memory_map@.len(),
                self.page_idx == 0,
                self.memory_map@ == old(self).memory_map@,
                frame_stream(self.memory_map@.take(self.desc_idx as int)).len() == frame_stream(
                    old(self).memory_map@.take(old(self).desc_idx as int),
                ).len(),
            decreases self.memory_map@.len() - self.desc_idx,
        {
            proof {
                lemma_stream_take_succ(self.memory_map@, self.desc_idx as int);
            }
            self.desc_idx = self.desc_idx + 1;
        }
    }

    /// Builds the allocator over a firmware memory map. No frame has been
    /// yielded yet.
    pub fn new(memory_map: Vec<MemoryDescriptor>) -> (r: Self)
        requires
            wf_map(memory_map@),
        ensures
            r.inv(),
            r.map_view() == memory_map@,
            r.position() == 0,
    {
        let mut r = PageTableFrameAllocator { memory_map, desc_idx: 0, page_idx: 0 };
        proof {
            assert(r.memory_map@.take(0) =~= Seq::<MemoryDescriptor>::empty());
        }
        r.normalize();
        r
    }

    /// Yields the next free frame, or nothing once the usable stream is
    /// exhausted. The same address is never yielded twice as long as the
    /// usable regions of the map do not overlap.
    pub fn allocate_frame(&mut self) -> (r: Option<u64>)
        requires
            old(self).inv(),
        ensures
            final(self).inv(),
            final(self).map_view() == old(self).map_view(),
            old(self).position() < old(self).stream().len() ==> {
                &&& r is Some
                &&& r->Some_0 as int == old(self).stream()[old(self).position()]
                &&& final(self).position() == old(self).position() + 1
            },
            old(self).position() >= old(self).stream().len() ==> {
                &&& r is None
                &&& *final(self) == *old(self)
            },
    {
        if self.desc_idx >= self.memory_map.len() {
            proof {
                assert(self.memory_map@.take(self.desc_idx as int) =~= self.memory_map@);
            }
            return None;
        }
        let d = self.memory_map[self.desc_idx];
        proof {
            lemma_stream_decompose(self.memory_map@, self.desc_idx as int);
            assert(d.frames()[self.page_idx as int] == d.physical_address + self.page_idx * 4096);
            assert(self.page_idx * 4096 <= (d.size - 1) * 4096) by (nonlinear_arith)
                requires
                    self.page_idx < d.size,
            ;
        }
        let addr = d.physical_address + self.page_idx * PAGE_SIZE;
        self.page_idx = self.page_idx + 1;
        if self.page_idx >= d.size {
            proof {
                lemma_stream_take_succ(self.memory_map@, self.desc_idx as int);
            }
            self.desc_idx = self.desc_idx + 1;
            self.page_idx = 0;
            self.normalize();
        }
        Some(addr as u64)
    }
}

impl PageTableFrameAllocator {
    /// Allocates a run backing `size` bytes by drawing `size / 4096`
    /// single frames and remembering the first. A request below one page
    /// draws nothing and reports address zero; when any draw fails the
    /// run is abandoned, but the frames already drawn stay consumed.
    pub fn allocate_size(&mut self, size: usize) -> (r: Option<(u64, usize)>)
        requires
            old(self).inv(),
        ensures
            final(self).inv(),
            final(self).map_view() == old(self).map_view(),
            size / 4096 == 0 ==> r == Some((0u64, 0usize)) && final(self).position() == old(
                self,
            ).position(),
            size / 4096 > 0 && old(self).position() + size / 4096 <= old(self).stream().len()
                ==> {
                &&& r is Some
                &&& r->Some_0.0 as int == old(self).stream()[old(self).position()]
                &&& r->Some_0.1 == size / 4096
                &&& final(self).position() == old(self).position() + size / 4096
            },
            old(self).position() + size / 4096 > old(self).stream().len() ==> {
                &&& r is None
                &&& final(self).position() == old(self).stream().len()
            },
    {
        proof {
            self.lemma_position_bounds();
        }
        let n = size / PAGE_SIZE;
        let mut ret_frame: u64 = 0;
        let mut i: usize = 0;
        while i < n
            invariant
                self.inv(),
                self.map_view() == old(self).map_view(),
                n == size / 4096,
                i <= n,
                self.position() == old(self).position() + i,
                self.position() <= self.stream().len(),
                i == 0 ==> ret_frame == 0,
                i > 0 ==> ret_frame as int == old(self).stream()[old(self).position()],
            decreases n - i,
        {
            if let Some(f) = self.allocate_frame() {
                if i == 0 {
                    ret_frame = f;
                }
            } else {
                proof {
                    self.lemma_position_bounds();
                    assert(self.position() == self.stream().len());
                }
                return None;
            }
            i = i + 1;
            proof {
                self.lemma_position_bounds();
            }
        }
        Some((ret_frame, n))
    }

    /// Replaces the memory map after the firmware hands over a revised
    /// one. One frame is drawn from the old stream as a watermark; every
    /// usable descriptor of the new map that starts below that frame is
    /// skipped, and so is the first one that does not — the new cursor
    /// begins right after it.
    pub fn swap_map(&mut self, memory_map: Vec<MemoryDescriptor>)
        requires
            old(self).inv(),
            wf_map(memory_map@),
            old(self).position() < old(self).stream().len(),
            exists|i: int|
                0 <= i < memory_map@.len() && (#[trigger] memory_map@[i]).memory_type.spec_is_usable()
                    && memory_map@[i].physical_address >= old(self).stream()[old(self).position()]
                    - old(self).stream()[old(self).position()] % 4096,
        ensures
            final(self).inv(),
            final(self).map_view() == memory_map@,
            exists|i: int|
                {
                    let curr = old(self).stream()[old(self).position()] - old(self).stream()[old(
                        self,
                    ).position()] % 4096;
                    &&& 0 <= i < memory_map@.len()
                    &&& (#[trigger] memory_map@[i]).memory_type.spec_is_usable()
                    &&& memory_map@[i].physical_address >= curr
                    &&& forall|j: int|
                        0 <= j < i && (#[trigger] memory_map@[j]).memory_type.spec_is_usable()
                            ==> memory_map@[j].physical_address < curr
                    &&& final(self).position() == frame_stream(memory_map@.take(i + 1)).len()
                },
    {
        let curr_frame = self.allocate_frame();
        let curr = match curr_frame {
            Some(f) => f - f % (PAGE_SIZE as u64),
            None => 0,
        };
        let ghost curr_spec = old(self).stream()[old(self).position()] - old(self).stream()[old(
            self,
        ).position()] % 4096;
        assert(curr as int == curr_spec);
        let map_len = memory_map.len();
        let mut i: usize = 0;
        loop
            invariant
                memory_map@.len() == map_len,
                i <= map_len,
                wf_map(memory_map@),
                curr as int == curr_spec,
                forall|j: int|
                    0 <= j < i && (#[trigger] memory_map@[j]).memory_type.spec_is_usable()
                        ==> memory_map@[j].physical_address < curr,
                exists|j: int|
                    i <= j < memory_map@.len() && (
                    #[trigger] memory_map@[j]).memory_type.spec_is_usable()
                        && memory_map@[j].physical_address >= curr,
            ensures
                i < memory_map@.len(),
                memory_map@[i as int].memory_type.spec_is_usable(),
                memory_map@[i as int].physical_address >= curr,
                forall|j: int|
                    0 <= j < i && (#[trigger] memory_map@[j]).memory_type.spec_is_usable()
                        ==> memory_map@[j].physical_address < curr,
            decreases memory_map@.len() - i,
        {
            if memory_map[i].memory_type.is_usable() && memory_map[i].physical_address as u64
                >= curr {
                break ;
            }
            i = i + 1;
        }
        let ghost boundary = i as int;
        self.memory_map = memory_map;
        self.desc_idx = i + 1;
        self.page_idx = 0;
        self.normalize();
        assert(final(self).position() == frame_stream(self.memory_map@.take(boundary + 1)).len());
    }

    /// All frame addresses the map can ever yield, front to back, as the
    /// allocator would hand them out from a fresh cursor.
    pub fn usable_frames(&self) -> (r: Vec<u64>)
        requires
            self.inv(),
        ensures
            r@.len() == self.stream().len(),
            forall|k: int| 0 <= k < r@.len() ==> r@[k] as int == self.stream()[k],
    {
        let mut out: Vec<u64> = Vec::new();
        let mut i: usize = 0;
        while i < self.memory_map.len()
            invariant
                self.inv(),
                i <= self.memory_map@.len(),
                out@.len() == frame_stream(self.memory_map@.take(i as int)).len(),
                forall|k: int|
                    0 <= k < out@.len() ==> out@[k] as int == frame_stream(
                        self.memory_map@.take(i as int),
                    )[k],
            decreases self.memory_map@.len() - i,
        {
            let d = self.memory_map[i];
            proof {
                lemma_stream_take_succ(self.memory_map@, i as int);
            }
            if d.memory_type.is_usable() {
                let mut p: usize = 0;
                while p < d.size
                    invariant
                        wf_map(self.memory_map@),
                        0 <= i < self.memory_map@.len(),
                        d == self.memory_map@[i as int],
                        d.memory_type.spec_is_usable(),
                        p <= d.size,
                        out@.len() == frame_stream(self.memory_map@.take(i as int)).len() + p,
                        forall|k: int|
                            0 <= k < out@.len() ==> out@[k] as int == (frame_stream(
                                self.memory_map@.take(i as int),
                            ) + d.frames())[k],
                    decreases d.size - p,
                {
                    proof {
                        assert(p * 4096 <= (d.size - 1) * 4096) by (nonlinear_arith)
                            requires
                                p < d.size,
                        ;
                    }
                    out.push((d.physical_address + p * PAGE_SIZE) as u64);
                    p = p + 1;
                }
            }
            i = i + 1;
        }
        proof {
            assert(self.memory_map@.take(self.memory_map@.len() as int) =~= self.memory_map@);
        }
        out
    }
}

/// Every address the stream yields lies inside some usable descriptor's
/// byte range, at an exact multiple of 4096 from that descriptor's start.
/// Together with the allocator's cursor contract this pins down each
/// yielded frame: call `k` of `allocate_frame` returns `stream[k]`.
pub proof fn lemma_frame_stream_bounds(map: Seq<MemoryDescriptor>, k: int)
    requires
        0 <= k < frame_stream(map).len(),
    ensures
        exists|i: int|
            {
                &&& 0 <= i < map.len()
                &&& (#[trigger] map[i]).memory_type.spec_is_usable()
                &&& map[i].physical_address <= frame_stream(map)[k] < map[i].physical_address
                    + map[i].size * 4096
                &&& (frame_stream(map)[k] - map[i].physical_address) % 4096 == 0
            },
    decreases map.len(),
{
    let head = if map[0].memory_type.spec_is_usable() {
        map[0].frames()
    } else {
        Seq::<int>::empty()
    };
    if k < head.len() {
        let d = map[0];
        assert(frame_stream(map)[k] == d.physical_address + k * 4096);
        assert(k * 4096 < d.size * 4096) by (nonlinear_arith)
            requires
                k < d.size,
        ;
        assert(0 <= k * 4096) by (nonlinear_arith)
            requires
                0 <= k,
        ;
        assert((k * 4096) % 4096 == 0) by (nonlinear_arith);
        assert(map[0].memory_type.spec_is_usable());
    } else {
        let rest = map.skip(1);
        lemma_frame_stream_bounds(rest, k - head.len());
        assert(frame_stream(map)[k] == frame_stream(rest)[k - head.len()]);
        let i = choose|i: int|
            {
                &&& 0 <= i < rest.len()
                &&& (#[trigger] rest[i]).memory_type.spec_is_usable()
                &&& rest[i].physical_address <= frame_stream(rest)[k - head.len()]
                    < rest[i].physical_address + rest[i].size * 4096
                &&& (frame_stream(rest)[k - head.len()] - rest[i].physical_address) % 4096 == 0
            };
        assert(map[i + 1] == rest[i]);
    }
}

/// No two usable descriptors' byte ranges overlap.
pub open spec fn disjoint_usable(map: Seq<MemoryDescriptor>) -> bool {
    forall|i: int, j: int|
        0 <= i < j < map.len() && (#[trigger] map[i]).memory_type.spec_is_usable() && (
        #[trigger] map[j]).memory_type.spec_is_usable() ==> map[i].physical_address + map[i].size
            * 4096 <= map[j].physical_address || map[j].physical_address + map[j].size * 4096
            <= map[i].physical_address
}

/// The allocator never yields the same physical frame twice: over a map
/// whose usable regions do not overlap, the frame stream is injective.
/// (When two usable descriptors cover the same bytes the stream does
/// repeat them, so the disjointness hypothesis cannot be dropped.)
pub proof fn lemma_frame_stream_injective(map: Seq<MemoryDescriptor>, k1: int, k2: int)
    requires
        disjoint_usable(map),
        0 <= k1 < k2 < frame_stream(map).len(),
    ensures
        frame_stream(map)[k1] != frame_stream(map)[k2],
    decreases map.len(),
{
    let head = if map[0].memory_type.spec_is_usable() {
        map[0].frames()
    } else {
        Seq::<int>::empty()
    };
    let rest = map.skip(1);
    if k2 < head.len() {
        let d = map[0];
        assert(head[k1] == d.physical_address + k1 * 4096);
        assert(head[k2] == d.physical_address + k2 * 4096);
        assert(k1 * 4096 < k2 * 4096) by (nonlinear_arith)
            requires
                k1 < k2,
        ;
    } else if k1 >= head.len() {
        assert(forall|i: int, j: int|
            0 <= i < j < rest.len() && (#[trigger] rest[i]).memory_type.spec_is_usable() && (
            #[trigger] rest[j]).memory_type.spec_is_usable() ==> rest[i] == map[i + 1] && rest[j]
                == map[j + 1]);
        lemma_frame_stream_injective(rest, k1 - head.len(), k2 - head.len());
    } else {
        // k1 falls in the head descriptor, k2 in some later one; their
        // byte ranges are disjoint.
        let d = map[0];
        assert(head[k1] == d.physical_address + k1 * 4096);
        assert(k1 * 4096 < d.size * 4096) by (nonlinear_arith)
            requires
                k1 < d.size,
        ;
        assert(0 <= k1 * 4096) by (nonlinear_arith)
            requires
                0 <= k1,
        ;
        lemma_frame_stream_bounds(rest, k2 - head.len());
        let i = choose|i: int|
            {
                &&& 0 <= i < rest.len()
                &&& (#[trigger] rest[i]).memory_type.spec_is_usable()
                &&& rest[i].physical_address <= frame_stream(rest)[k2 - head.len()]
                    < rest[i].physical_address + rest[i].size * 4096
                &&& (frame_stream(rest)[k2 - head.len()] - rest[i].physical_address) % 4096 == 0
            };
        assert(map[i + 1] == rest[i]);
        assert(frame_stream(map)[k2] == frame_stream(rest)[k2 - head.len()]);
    }
}

/// Total bytes of usable memory in the map: one page per streamed frame.
pub open spec fn total_usable_bytes(map: Seq<MemoryDescriptor>) -> int {
    frame_stream(map).len() as int * 4096
}

/// Sums the usable descriptors' sizes in bytes, as the boot path does to
/// learn how much general-purpose memory the machine has.
pub fn get_mem_size(map: &Vec<MemoryDescriptor>) -> (r: usize)
    requires
        total_usable_bytes(map@) <= usize::MAX,
    ensures
        r == total_usable_bytes(map@),
{
    let mut all: usize = 0;
    let mut i: usize = 0;
    proof {
        assert(map@.take(0) =~= Seq::<MemoryDescriptor>::empty());
    }
    while i < map.len()
        invariant
            i <= map@.len(),
            total_usable_bytes(map@) <= usize::MAX,
            all == frame_stream(map@.take(i as int)).len() * 4096,
        decreases map@.len() - i,
    {
        proof {
            lemma_stream_take_succ(map@, i as int);
            lemma_stream_split(map@, i as int + 1);
            assert(frame_stream(map@.take(i as int + 1)).len() <= frame_stream(map@).len());
        }
        if map[i].memory_type.is_usable() {
            proof {
                assert(frame_stream(map@.take(i as int + 1)).len() * 4096 <= frame_stream(map@).len()
                    * 4096) by (nonlinear_arith)
                    requires
                        frame_stream(map@.take(i as int + 1)).len() <= frame_stream(map@).len(),
                ;
            }
            all = all + map[i].size * PAGE_SIZE;
        } else {
            proof {
                assert(frame_stream(map@.take(i as int + 1)) =~= frame_stream(
                    map@.take(i as int),
                ));
            }
        }
        i = i + 1;
    }
    proof {
        assert(map@.take(map@.len() as int) =~= map@);
    }
    all
}

/// Rewrites the memory map before the firmware's virtual address map is
/// installed: every runtime descriptor's virtual address is set to its
/// physical address, everything else is carried over unchanged.
pub fn virtualize_runtime_map(map: &Vec<MemoryDescriptor>) -> (r: Vec<MemoryDescriptor>)
    ensures
        r@.len() == map@.len(),
        forall|k: int|
            0 <= k < map@.len() ==> r@[k] == if (#[trigger] map@[k]).spec_is_runtime() {
                MemoryDescriptor { virtual_address: map@[k].physical_address, ..map@[k] }
            } else {
                map@[k]
            },
{
    let mut out: Vec<MemoryDescriptor> = Vec::new();
    let mut i: usize = 0;
    while i < map.len()
        invariant
            i <= map@.len(),
            out@.len() == i,
            forall|k: int|
                0 <= k < i ==> out@[k] == if (#[trigger] map@[k]).spec_is_runtime() {
                    MemoryDescriptor { virtual_address: map@[k].physical_address, ..map@[k] }
                } else {
                    map@[k]
                },
        decreases map@.len() - i,
    {
        let d = map[i];
        if d.is_runtime() {
            out.push(
                MemoryDescriptor {
                    memory_type: d.memory_type,
                    physical_address: d.physical_address,
                    virtual_address: d.physical_address,
                    size: d.size,
                    attributes: d.attributes,
                },
            );
        } else {
            out.push(d);
        }
        i = i + 1;
    }
    out
}

/// Translates an address on the old stack to the same offset below a new
/// stack top, for carrying boot records across a stack switch.
pub fn addr(a: usize, stack_top: usize, new_stack_top: usize) -> (r: usize)
    requires
        a <= stack_top,
        stack_top - a <= new_stack_top,
    ensures
        r == new_stack_top - (stack_top - a),
{
    let add = stack_top - a;
    new_stack_top - add
}

} // verus!
