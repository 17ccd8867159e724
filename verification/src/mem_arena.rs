//! The bookkeeping of a growable memory arena: where each allocation goes
//! and what the arena's statistics are.
//!
//! The arena hands out memory from a current block until a request does
//! not fit in what is left of it; then a request above the large
//! allocation threshold gets a block of its own, and any other request
//! starts a new current block.  The blocks themselves are owned by the
//! caller, which reports the address and capacity of the current block
//! with each request and the address of each new current block; this
//! module decides where every allocation is placed and keeps the
//! statistics.
use vstd::prelude::*;

verus! {

/// The default size of a block: 32 MiB.
pub const DEFAULT_BLOCK_SIZE: usize = 33554432;

/// The default large allocation threshold: 1 MiB.
pub const DEFAULT_LARGE_ALLOCATION_THRESHOLD: usize = 1048576;

/// How far past `addr` the next multiple of `alignment` lies.
pub open spec fn align_gap(addr: int, alignment: int) -> int {
    (alignment - addr % alignment) % alignment
}

/// How far past `addr` the next multiple of `alignment` lies.
pub fn alignment_offset(addr: usize, alignment: usize) -> (r: usize)
    requires
        alignment > 0,
    ensures
        r == align_gap(addr as int, alignment as int),
        r < alignment,
        (addr + r) % (alignment as int) == 0,
{
    proof {
        lemma_align_gap(addr as int, alignment as int);
    }
    (alignment - (addr % alignment)) % alignment
}

proof fn lemma_align_gap(addr: int, alignment: int)
    requires
        addr >= 0,
        alignment > 0,
    ensures
        0 <= align_gap(addr, alignment) < alignment,
        (addr + align_gap(addr, alignment)) % alignment == 0,
{
    let m = addr % alignment;
    assert(0 <= m < alignment);
    if m == 0 {
        assert(align_gap(addr, alignment) == 0) by {
            assert((alignment - 0) % alignment == 0) by (nonlinear_arith)
                requires
                    alignment > 0,
            ;
        }
    } else {
        assert((alignment - m) % alignment == alignment - m) by (nonlinear_arith)
            requires
                0 < m < alignment,
        ;
        assert((addr + (alignment - m)) % alignment == 0) by (nonlinear_arith)
            requires
                m == addr % alignment,
                alignment > 0,
                0 < m < alignment,
                addr >= 0,
        ;
    }
}

/// Where an allocation goes.
#[derive(Debug, Copy, Clone, PartialEq, Eq)]
pub enum Placement {
    /// A request of size zero: the start of the current block.
    BlockStart,
    /// At offset `start` of the current block.
    InCurrent { start: usize },
    /// In a block of its own, of `capacity` bytes, added behind the others;
    /// the allocation starts at the block's first suitably aligned byte.
    OwnBlock { capacity: usize },
    /// In a new current block of `capacity` bytes, which takes the place of
    /// the current one; its address is then reported with
    /// [`MemArena::place_in_new_block`].
    NewCurrentBlock { capacity: usize },
}

/// The bookkeeping of an arena.
#[derive(Debug)]
pub struct MemArena {
    block_size: usize,
    large_alloc_threshold: usize,
    stat_space_occupied: usize,
    stat_space_allocated: usize,
    stat_blocks: usize,
    stat_large_blocks: usize,
    filled: usize,
}

impl MemArena {
    /// The size of a shared block.
    pub closed spec fn block_size_spec(&self) -> nat {
        self.block_size as nat
    }

    /// Requests above this size get a block of their own when they do not
    /// fit in the current block.
    pub closed spec fn threshold(&self) -> nat {
        self.large_alloc_threshold as nat
    }

    /// The memory that the blocks take up.
    pub closed spec fn occupied(&self) -> nat {
        self.stat_space_occupied as nat
    }

    /// The sum of the sizes of all requests.
    pub closed spec fn allocated(&self) -> nat {
        self.stat_space_allocated as nat
    }

    /// The number of blocks.
    pub closed spec fn blocks(&self) -> nat {
        self.stat_blocks as nat
    }

    /// The number of blocks given to single large requests.
    pub closed spec fn large_blocks(&self) -> nat {
        self.stat_large_blocks as nat
    }

    /// How much of the current block is in use.
    pub closed spec fn current_filled(&self) -> nat {
        self.filled as nat
    }

    /// The bookkeeping is consistent.
    pub open spec fn wf(&self) -> bool {
        &&& self.threshold() <= self.block_size_spec()
        &&& self.blocks() >= 1
        &&& self.large_blocks() < self.blocks()
    }

    /// An arena with the default block size and large allocation threshold,
    /// holding one empty block.
    pub fn new() -> (a: MemArena)
        ensures
            a.wf(),
            a.block_size_spec() == DEFAULT_BLOCK_SIZE,
            a.threshold() == DEFAULT_LARGE_ALLOCATION_THRESHOLD,
            a.occupied() == DEFAULT_BLOCK_SIZE,
            a.allocated() == 0,
            a.blocks() == 1,
            a.large_blocks() == 0,
            a.current_filled() == 0,
    {
        MemArena {
            block_size: DEFAULT_BLOCK_SIZE,
            large_alloc_threshold: DEFAULT_LARGE_ALLOCATION_THRESHOLD,
            stat_space_occupied: DEFAULT_BLOCK_SIZE,
            stat_space_allocated: 0,
            stat_blocks: 1,
            stat_large_blocks: 0,
            filled: 0,
        }
    }

    /// An arena with the given block size and large allocation threshold,
    /// holding one empty block.  The threshold must not exceed the block
    /// size.
    pub fn new_with_settings(block_size: usize, large_alloc_threshold: usize) -> (a: MemArena)
        requires
            large_alloc_threshold <= block_size,
        ensures
            a.wf(),
            a.block_size_spec() == block_size,
            a.threshold() == large_alloc_threshold,
            a.occupied() == block_size,
            a.allocated() == 0,
            a.blocks() == 1,
            a.large_blocks() == 0,
            a.current_filled() == 0,
    {
        MemArena {
            block_size,
            large_alloc_threshold,
            stat_space_occupied: block_size,
            stat_space_allocated: 0,
            stat_blocks: 1,
            stat_large_blocks: 0,
            filled: 0,
        }
    }

    /// The statistics: (space occupied, space allocated, block count, large
    /// block count).
    ///
    /// Space occupied is the memory that the blocks take up; space
    /// allocated is the sum of all the allocation requests; large blocks
    /// are those given to single requests above the large allocation
    /// threshold.
    pub fn stats(&self) -> (r: (usize, usize, usize, usize))
        ensures
            r.0 == self.occupied(),
            r.1 == self.allocated(),
            r.2 == self.blocks(),
            r.3 == self.large_blocks(),
    {
        (self.stat_space_occupied, self.stat_space_allocated, self.stat_blocks, self.stat_large_blocks)
    }

    /// How far the current block is filled.
    pub fn filled(&self) -> (r: usize)
        ensures
            r == self.current_filled(),
    {
        self.filled
    }

    /// The size of a shared block.
    pub fn block_size(&self) -> (r: usize)
        ensures
            r == self.block_size_spec(),
    {
        self.block_size
    }

    /// Forgets every allocation: one empty block remains.
    pub fn free_all_and_reset(&mut self)
        requires
            old(self).wf(),
        ensures
            final(self).wf(),
            final(self).block_size_spec() == old(self).block_size_spec(),
            final(self).threshold() == old(self).threshold(),
            final(self).occupied() == old(self).block_size_spec(),
            final(self).allocated() == 0,
            final(self).blocks() == 1,
            final(self).large_blocks() == 0,
            final(self).current_filled() == 0,
    {
        self.stat_space_occupied = self.block_size;
        self.stat_space_allocated = 0;
        self.stat_blocks = 1;
        self.stat_large_blocks = 0;
        self.filled = 0;
    }

    /// Decides where a request of `size` bytes aligned to `alignment` goes,
    /// given the address and capacity of the current block, and records it.
    ///
    /// A request that fits after what is in use of the current block, at
    /// its next suitably aligned address, goes there; otherwise one above
    /// the large allocation threshold gets a block of its own, with room
    /// for any alignment, and any other starts a new current block.
    pub fn plan_alloc(
        &mut self,
        size: usize,
        alignment: usize,
        current_addr: usize,
        current_capacity: usize,
    ) -> (p: Placement)
        requires
            old(self).wf(),
            alignment > 0,
            old(self).current_filled() <= current_capacity,
            current_addr + current_capacity <= usize::MAX,
            current_capacity + size + alignment <= usize::MAX,
            old(self).allocated() + size <= usize::MAX,
            old(self).occupied() + size + alignment <= usize::MAX,
            old(self).occupied() + old(self).block_size_spec() <= usize::MAX,
            old(self).blocks() < usize::MAX,
        ensures
            final(self).wf(),
            final(self).block_size_spec() == old(self).block_size_spec(),
            final(self).threshold() == old(self).threshold(),
            final(self).allocated() == old(self).allocated() + size,
            p matches Placement::InCurrent { start } ==> start >= old(self).current_filled() && start
                + size <= current_capacity && (current_addr + start) % (alignment as int) == 0,
            ({
                let start = old(self).current_filled() + align_gap(
                    current_addr + old(self).current_filled(),
                    alignment as int,
                );
                if size == 0 {
                    &&& p == Placement::BlockStart
                    &&& final(self).occupied() == old(self).occupied()
                    &&& final(self).blocks() == old(self).blocks()
                    &&& final(self).large_blocks() == old(self).large_blocks()
                    &&& final(self).current_filled() == old(self).current_filled()
                } else if start + size <= current_capacity {
                    &&& p == Placement::InCurrent { start: start as usize }
                    &&& final(self).occupied() == old(self).occupied()
                    &&& final(self).blocks() == old(self).blocks()
                    &&& final(self).large_blocks() == old(self).large_blocks()
                    &&& final(self).current_filled() == start + size
                } else if size > old(self).threshold() {
                    &&& p == Placement::OwnBlock { capacity: (size + alignment - 1) as usize }
                    &&& final(self).occupied() == old(self).occupied() + size + alignment - 1
                    &&& final(self).blocks() == old(self).blocks() + 1
                    &&& final(self).large_blocks() == old(self).large_blocks() + 1
                    &&& final(self).current_filled() == old(self).current_filled()
                } else {
                    &&& p == Placement::NewCurrentBlock { capacity: old(self).block_size_spec() as usize }
                    &&& final(self).occupied() == old(self).occupied()
                        + old(self).block_size_spec()
                    &&& final(self).blocks() == old(self).blocks() + 1
                    &&& final(self).large_blocks() == old(self).large_blocks()
                    &&& final(self).current_filled() == 0
                }
            }),
    {
        proof {
            lemma_align_gap((current_addr + self.filled) as int, alignment as int);
        }
        self.stat_space_allocated = self.stat_space_allocated + size;
        if size == 0 {
            return Placement::BlockStart;
        }
        let start = self.filled + alignment_offset(current_addr + self.filled, alignment);
        if start + size <= current_capacity {
            self.filled = start + size;
            Placement::InCurrent { start }
        } else if size > self.large_alloc_threshold {
            self.stat_space_occupied = self.stat_space_occupied + size + alignment - 1;
            self.stat_large_blocks = self.stat_large_blocks + 1;
            self.stat_blocks = self.stat_blocks + 1;
            Placement::OwnBlock { capacity: size + alignment - 1 }
        } else {
            self.stat_space_occupied = self.stat_space_occupied + self.block_size;
            self.stat_blocks = self.stat_blocks + 1;
            self.filled = 0;
            Placement::NewCurrentBlock { capacity: self.block_size }
        }
    }

    /// Places a request of `size` bytes aligned to `alignment` at the start
    /// of a new current block at address `addr`, after
    /// [`MemArena::plan_alloc`] asked for one: returns its offset, the
    /// block's first suitably aligned byte.
    pub fn place_in_new_block(&mut self, addr: usize, alignment: usize, size: usize) -> (start:
        usize)
        requires
            old(self).wf(),
            alignment > 0,
            old(self).current_filled() == 0,
            size + alignment <= usize::MAX,
        ensures
            final(self).wf(),
            start == align_gap(addr as int, alignment as int),
            start < alignment,
            (addr + start) % (alignment as int) == 0,
            final(self).current_filled() == start + size,
            final(self).block_size_spec() == old(self).block_size_spec(),
            final(self).threshold() == old(self).threshold(),
            final(self).occupied() == old(self).occupied(),
            final(self).allocated() == old(self).allocated(),
            final(self).blocks() == old(self).blocks(),
            final(self).large_blocks() == old(self).large_blocks(),
    {
        let start = alignment_offset(addr, alignment);
        self.filled = start + size;
        start
    }
}

/// A block of its own, of `size + alignment - 1` bytes, has room for the
/// request at its first suitably aligned byte, wherever it lies.
pub proof fn law_own_block_has_room(addr: nat, alignment: nat, size: nat)
    requires
        alignment > 0,
    ensures
        align_gap(addr as int, alignment as int) + size <= size + alignment - 1,
        (addr + align_gap(addr as int, alignment as int)) % (alignment as int) == 0,
{
    lemma_align_gap(addr as int, alignment as int);
}

/// The room that an array of `len` items of `type_size` bytes aligned to
/// `type_align` takes: each item padded to its alignment.
pub open spec fn array_room(type_size: int, type_align: int, len: int) -> int {
    (type_size + align_gap(type_size, type_align)) * len
}

/// The room that an array of `len` items of `type_size` bytes aligned to
/// `type_align` takes: each item padded to its alignment.
pub fn array_mem_size(type_size: usize, type_align: usize, len: usize) -> (r: usize)
    requires
        type_align > 0,
        type_size + type_align <= usize::MAX,
        (type_size + align_gap(type_size as int, type_align as int)) * len <= usize::MAX,
    ensures
        r == array_room(type_size as int, type_align as int, len as int),
{
    let padding = alignment_offset(type_size, type_align);
    let aligned = type_size + padding;
    aligned * len
}

} // verus!
