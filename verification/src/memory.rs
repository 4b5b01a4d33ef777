//! The executable linear memory: its bytes, and the table of the blocks that
//! are reserved in it.
//!
//! The table is kept in the order of the blocks' addresses. A block is
//! placed at the lowest address at which it fits, found by walking the gaps
//! between the reserved blocks from the start of the memory.

use vstd::prelude::*;
use vstd::map::*;
use vstd::slice::{slice_subrange, slice_to_vec};
use crate::descriptor::{MemorySlice, DESCRIPTOR_SIZE};
use crate::layout::{footprint, lemma_align_up, occupied, round_up, Layout};
use crate::model::{apart, patch, vacant_in, BlockKind, Slot, State};

verus! {

/// An entry of the block table.
#[derive(Clone, Copy)]
struct Block {
    /// The address of the block's first byte.
    start: u32,
    /// The number of bytes that were asked for.
    size: u32,
    kind: BlockKind,
}

/// A linear memory of a fixed number of bytes, addressed from zero.
pub struct LinearMemory {
    bytes: Vec<u8>,
    blocks: Vec<Block>,
}

/// The table entry `i` is the block at address `a`.
spec fn starts_at(blocks: Seq<Block>, i: int, a: int) -> bool {
    0 <= i < blocks.len() && blocks[i].start == a
}

/// An index of the block at address `a`, where the table has one.
spec fn index_of(blocks: Seq<Block>, a: int) -> int {
    choose|i: int| starts_at(blocks, i, a)
}

/// The blocks of the table, by their addresses.
spec fn table(blocks: Seq<Block>) -> Map<int, Slot> {
    Map::new(
        |a: int| exists|i: int| starts_at(blocks, i, a),
        |a: int|
            Slot { size: blocks[index_of(blocks, a)].size, kind: blocks[index_of(blocks, a)].kind },
    )
}

/// The table is in the order of the addresses: each block ends before the
/// next one starts, and all of them end within the memory.
spec fn ordered(blocks: Seq<Block>, capacity: int) -> bool {
    &&& forall|i: int, j: int|
        0 <= i < j < blocks.len() ==> blocks[i].start + footprint(blocks[i].size)
            <= blocks[j].start
    &&& forall|i: int|
        0 <= i < blocks.len() ==> blocks[i].start + footprint(blocks[i].size) <= capacity
}

/// In an ordered table, entry `i` is the only block at its address.
proof fn lemma_table_at(blocks: Seq<Block>, capacity: int, i: int)
    requires
        ordered(blocks, capacity),
        0 <= i < blocks.len(),
    ensures
        table(blocks).contains_key(blocks[i].start as int),
        index_of(blocks, blocks[i].start as int) == i,
        table(blocks)[blocks[i].start as int] == (Slot {
            size: blocks[i].size,
            kind: blocks[i].kind,
        }),
{
    let a = blocks[i].start as int;
    assert(starts_at(blocks, i, a));
    let j = index_of(blocks, a);
    assert(starts_at(blocks, j, a));
    if j < i {
        assert(blocks[j].start + footprint(blocks[j].size) <= blocks[i].start);
    } else if i < j {
        assert(blocks[i].start + footprint(blocks[i].size) <= blocks[j].start);
    }
}

/// Every address of the table is that of one of its entries.
proof fn lemma_table_key(blocks: Seq<Block>, a: int)
    requires
        table(blocks).contains_key(a),
    ensures
        starts_at(blocks, index_of(blocks, a), a),
        table(blocks)[a] == (Slot {
            size: blocks[index_of(blocks, a)].size,
            kind: blocks[index_of(blocks, a)].kind,
        }),
{
}

/// Putting a block into an ordered table, where the result is ordered, adds
/// that block to the blocks of the table.
proof fn lemma_table_insert(blocks: Seq<Block>, capacity: int, i: int, block: Block)
    requires
        0 <= i <= blocks.len(),
        ordered(blocks, capacity),
        ordered(blocks.insert(i, block), capacity),
    ensures
        table(blocks.insert(i, block)) == table(blocks).insert(
            block.start as int,
            Slot { size: block.size, kind: block.kind },
        ),
{
    let after = blocks.insert(i, block);
    let lhs = table(after);
    let rhs = table(blocks).insert(block.start as int, Slot { size: block.size, kind: block.kind });
    lemma_table_at(after, capacity, i);
    assert_maps_equal!(lhs, rhs, a: int => {
        if lhs.contains_key(a) {
            let k = index_of(after, a);
            lemma_table_key(after, a);
            if k < i {
                assert(after[k] == blocks[k]);
                lemma_table_at(blocks, capacity, k);
            } else if k > i {
                assert(after[k] == blocks[k - 1]);
                lemma_table_at(blocks, capacity, k - 1);
            }
        }
        if rhs.contains_key(a) && a != block.start {
            let j = index_of(blocks, a);
            lemma_table_key(blocks, a);
            if j < i {
                assert(after[j] == blocks[j]);
                assert(starts_at(after, j, a));
            } else {
                assert(after[j + 1] == blocks[j]);
                assert(starts_at(after, j + 1, a));
            }
        }
    });
}

/// Taking an entry out of an ordered table takes that block from the blocks
/// of the table and keeps the table ordered.
proof fn lemma_table_remove(blocks: Seq<Block>, capacity: int, i: int)
    requires
        0 <= i < blocks.len(),
        ordered(blocks, capacity),
    ensures
        ordered(blocks.remove(i), capacity),
        table(blocks.remove(i)) == table(blocks).remove(blocks[i].start as int),
{
    let after = blocks.remove(i);
    let lhs = table(after);
    let rhs = table(blocks).remove(blocks[i].start as int);
    assert(ordered(after, capacity)) by {
        assert forall|x: int, y: int| 0 <= x < y < after.len() implies after[x].start + footprint(
            after[x].size,
        ) <= after[y].start by {
            let bx = if x < i {
                x
            } else {
                x + 1
            };
            let by = if y < i {
                y
            } else {
                y + 1
            };
            assert(after[x] == blocks[bx] && after[y] == blocks[by]);
        }
        assert forall|x: int| 0 <= x < after.len() implies after[x].start + footprint(
            after[x].size,
        ) <= capacity by {
            let bx = if x < i {
                x
            } else {
                x + 1
            };
            assert(after[x] == blocks[bx]);
        }
    }
    lemma_table_at(blocks, capacity, i);
    assert_maps_equal!(lhs, rhs, a: int => {
        if lhs.contains_key(a) {
            let k = index_of(after, a);
            lemma_table_key(after, a);
            let bk = if k < i {
                k
            } else {
                k + 1
            };
            assert(after[k] == blocks[bk]);
            lemma_table_at(blocks, capacity, bk);
        }
        if rhs.contains_key(a) {
            let j = index_of(blocks, a);
            lemma_table_key(blocks, a);
            if j < i {
                assert(after[j] == blocks[j]);
                assert(starts_at(after, j, a));
            } else {
                assert(j > i);
                assert(after[j - 1] == blocks[j]);
                assert(starts_at(after, j - 1, a));
            }
        }
    });
}

/// Looks for the lowest address at which a block of the given layout fits
/// among `blocks` in a memory of `capacity` bytes. Where there is one, the
/// result is that address and the index at which the block belongs in the
/// table; where there is none, no address is vacant.
fn first_fit(blocks: &Vec<Block>, capacity: u32, layout: Layout) -> (fit: Option<(usize, u32)>)
    requires
        ordered(blocks@, capacity as int),
        layout.valid(),
    ensures
        match fit {
            Some((i, a)) => {
                &&& i <= blocks.len()
                &&& vacant_in(table(blocks@), capacity as int, a as int, layout)
                &&& forall|b: int| #[trigger]
                    vacant_in(table(blocks@), capacity as int, b, layout) ==> a <= b
                &&& forall|j: int|
                    0 <= j < i ==> blocks[j].start + footprint(blocks[j].size) <= a
                &&& forall|j: int| i <= j < blocks.len() ==> a + layout.footprint() <= blocks[j].start
            },
            None => forall|b: int| !#[trigger] vacant_in(table(blocks@), capacity as int, b, layout),
        },
{
    let need: u64 = occupied(layout.size);
    let n: usize = blocks.len();
    let mut i: usize = 0;
    let mut low: u64 = 0;
    while i < n
        invariant
            n == blocks.len(),
            i <= n,
            ordered(blocks@, capacity as int),
            layout.valid(),
            need == layout.footprint(),
            low <= capacity,
            forall|j: int| 0 <= j < i ==> blocks[j].start + footprint(blocks[j].size) <= low,
            forall|b: int|
                b < low ==> !#[trigger] vacant_in(table(blocks@), capacity as int, b, layout),
        decreases n - i,
    {
        let block: Block = blocks[i];
        let a: u64 = round_up(low, layout.align);
        proof {
            lemma_align_up(low as int, layout.align as int);
            lemma_table_at(blocks@, capacity as int, i as int);
        }
        if a + need <= block.start as u64 {
            proof {
                assert forall|b: int| #[trigger] table(blocks@).contains_key(b) implies apart(
                    a as int,
                    layout.footprint(),
                    b,
                    footprint(table(blocks@)[b].size),
                ) by {
                    let j = index_of(blocks@, b);
                    lemma_table_key(blocks@, b);
                    if j > i {
                        assert(blocks[i as int].start + footprint(blocks[i as int].size)
                            <= blocks[j].start);
                    }
                }
                assert forall|j: int| i <= j < blocks.len() implies a + layout.footprint()
                    <= blocks[j].start by {
                    if j > i {
                        assert(blocks[i as int].start + footprint(blocks[i as int].size)
                            <= blocks[j].start);
                    }
                }
            }
            return Some((i, a as u32));
        }
        let end: u64 = block.start as u64 + occupied(block.size);
        proof {
            assert forall|b: int| b < end implies !#[trigger] vacant_in(
                table(blocks@),
                capacity as int,
                b,
                layout,
            ) by {
                if low <= b && b % (layout.align as int) == 0 {
                    assert(a <= b);
                    assert(!apart(
                        b,
                        layout.footprint(),
                        block.start as int,
                        footprint(block.size),
                    ));
                }
            }
            assert forall|j: int| 0 <= j < i + 1 implies blocks[j].start + footprint(
                blocks[j].size,
            ) <= end by {
                if j < i {
                    assert(blocks[j].start + footprint(blocks[j].size) <= blocks[i as int].start);
                }
            }
        }
        low = end;
        i = i + 1;
    }
    let a: u64 = round_up(low, layout.align);
    proof {
        lemma_align_up(low as int, layout.align as int);
    }
    if a + need <= capacity as u64 {
        proof {
            assert forall|b: int| #[trigger] table(blocks@).contains_key(b) implies apart(
                a as int,
                layout.footprint(),
                b,
                footprint(table(blocks@)[b].size),
            ) by {
                lemma_table_key(blocks@, b);
            }
        }
        Some((i, a as u32))
    } else {
        None
    }
}

impl View for LinearMemory {
    type V = State;

    /// The state of the memory: its bytes and its reserved blocks.
    closed spec fn view(&self) -> State {
        State { bytes: self.bytes@, blocks: table(self.blocks@) }
    }
}

impl LinearMemory {
    /// The invariant of the representation: the memory can be addressed by
    /// 32-bit numbers and the block table is in order.
    pub closed spec fn inv(&self) -> bool {
        &&& self.bytes@.len() <= u32::MAX
        &&& ordered(self.blocks@, self.bytes@.len() as int)
    }

    /// The invariant of a linear memory: that of its representation and
    /// that of its state.
    pub open spec fn wf(&self) -> bool {
        self.inv() && self@.wf()
    }

    /// The representation's invariant makes the blocks of the state well formed.
    pub proof fn lemma_inv(&self)
        requires
            self.inv(),
        ensures
            self@.blocks_wf(),
    {
        let blocks = self.blocks@;
        let capacity = self.bytes@.len() as int;
        assert forall|a: int| #[trigger] self@.blocks.contains_key(a) implies 0 <= a && a
            + footprint(self@.blocks[a].size) <= self@.capacity() by {
            lemma_table_key(blocks, a);
        }
        assert forall|a: int, b: int|
            #![trigger self@.blocks.contains_key(a), self@.blocks.contains_key(b)]
            self@.blocks.contains_key(a) && self@.blocks.contains_key(b) && a != b implies apart(
            a,
            footprint(self@.blocks[a].size),
            b,
            footprint(self@.blocks[b].size),
        ) by {
            lemma_table_key(blocks, a);
            lemma_table_key(blocks, b);
            let i = index_of(blocks, a);
            let j = index_of(blocks, b);
            if i < j {
                assert(blocks[i].start + footprint(blocks[i].size) <= blocks[j].start);
            } else if j < i {
                assert(blocks[j].start + footprint(blocks[j].size) <= blocks[i].start);
            }
        }
    }

    /// A memory of `capacity` bytes, all zero, in which nothing is reserved.
    pub fn new(capacity: u32) -> (memory: LinearMemory)
        requires
            capacity <= isize::MAX,
        ensures
            memory.wf(),
            memory@.capacity() == capacity,
            memory@.blocks == Map::<int, Slot>::empty(),
            forall|i: int| 0 <= i < capacity ==> memory@.bytes[i] == 0,
    {
        let bytes: Vec<u8> = vec![0u8; capacity as usize];
        let memory = LinearMemory { bytes, blocks: Vec::new() };
        proof {
            assert(memory@.blocks =~= Map::<int, Slot>::empty());
        }
        memory
    }

    /// The number of bytes in the memory.
    pub fn capacity(&self) -> (capacity: u32)
        requires
            self.inv(),
        ensures
            capacity == self@.capacity(),
    {
        self.bytes.len() as u32
    }

    /// Copies `len` bytes out of the memory, from address `addr` on, as a
    /// host does that reads the memory directly.
    pub fn load(&self, addr: u32, len: u32) -> (bytes: Vec<u8>)
        requires
            addr + len <= self@.capacity(),
        ensures
            bytes@ == self@.bytes.subrange(addr as int, addr + len),
    {
        proof {
            assert(self.bytes.len() == self@.capacity());
        }
        let from: usize = addr as usize;
        let to: usize = from + len as usize;
        slice_to_vec(slice_subrange(self.bytes.as_slice(), from, to))
    }

    /// The descriptor stored at address `handle`.
    pub fn descriptor(&self, handle: u32) -> (slice: MemorySlice)
        requires
            handle + DESCRIPTOR_SIZE <= self@.capacity(),
        ensures
            slice == self@.descriptor(handle as int),
    {
        proof {
            assert(self.bytes.len() == self@.capacity());
        }
        let from: usize = handle as usize;
        let to: usize = from + DESCRIPTOR_SIZE as usize;
        MemorySlice::decode(slice_subrange(self.bytes.as_slice(), from, to))
    }

    /// The index of the block at address `addr` in the table, if the table has one.
    fn position(&self, addr: u32) -> (at: Option<usize>)
        requires
            self.inv(),
        ensures
            match at {
                Some(i) => i < self.blocks@.len() && self.blocks@[i as int].start == addr
                    && self@.blocks.contains_key(addr as int) && self@.blocks[addr as int] == (Slot {
                    size: self.blocks@[i as int].size,
                    kind: self.blocks@[i as int].kind,
                }),
                None => !self@.blocks.contains_key(addr as int),
            },
    {
        let n: usize = self.blocks.len();
        let mut i: usize = 0;
        while i < n
            invariant
                self.inv(),
                n == self.blocks@.len(),
                i <= n,
                forall|j: int| 0 <= j < i ==> self.blocks@[j].start != addr,
            decreases n - i,
        {
            if self.blocks[i].start == addr {
                proof {
                    lemma_table_at(self.blocks@, self.bytes@.len() as int, i as int);
                }
                return Some(i);
            }
            i = i + 1;
        }
        proof {
            if self@.blocks.contains_key(addr as int) {
                lemma_table_key(self.blocks@, addr as int);
            }
        }
        None
    }

    /// Whether `handle` is live: the address of a reserved descriptor.
    pub fn is_live(&self, handle: u32) -> (live: bool)
        requires
            self.inv(),
        ensures
            live == self@.is_handle(handle as int),
    {
        match self.position(handle) {
            Some(i) => match self.blocks[i].kind {
                BlockKind::Descriptor => true,
                BlockKind::Buffer => false,
            },
            None => false,
        }
    }

    /// Whether `slice` describes a reserved buffer.
    pub fn holds(&self, slice: &MemorySlice) -> (held: bool)
        requires
            self.inv(),
        ensures
            held == self@.holds(*slice),
    {
        match self.position(slice.ptr) {
            Some(i) => match self.blocks[i].kind {
                BlockKind::Buffer => self.blocks[i].size == slice.len,
                BlockKind::Descriptor => false,
            },
            None => false,
        }
    }

    /// Whether `slice` describes a reserved buffer that no live handle stands for.
    pub fn is_detached(&self, slice: &MemorySlice) -> (detached: bool)
        requires
            self.wf(),
        ensures
            detached == self@.detached(*slice),
    {
        if !self.holds(slice) {
            return false;
        }
        let n: usize = self.blocks.len();
        let mut i: usize = 0;
        while i < n
            invariant
                self.wf(),
                n == self.blocks@.len(),
                i <= n,
                forall|j: int|
                    0 <= j < i && self.blocks@[j].kind is Descriptor ==> self@.descriptor(
                        self.blocks@[j].start as int,
                    ).ptr != slice.ptr,
            decreases n - i,
        {
            let block: Block = self.blocks[i];
            match block.kind {
                BlockKind::Descriptor => {
                    proof {
                        lemma_table_at(self.blocks@, self.bytes@.len() as int, i as int);
                        assert(self@.is_handle(block.start as int));
                        self@.lemma_region_in_bounds(block.start as int);
                    }
                    if self.descriptor(block.start).ptr == slice.ptr {
                        return false;
                    }
                },
                BlockKind::Buffer => {},
            }
            i = i + 1;
        }
        proof {
            assert forall|h: int| #[trigger] self@.is_handle(h) implies self@.descriptor(h).ptr
                != slice.ptr by {
                lemma_table_key(self.blocks@, h);
            }
        }
        true
    }

    /// Whether there is room for a block of the given layout.
    pub fn has_room(&self, layout: Layout) -> (room: bool)
        requires
            self.inv(),
            layout.valid(),
        ensures
            room == self@.has_room(layout),
    {
        let capacity: u32 = self.bytes.len() as u32;
        match first_fit(&self.blocks, capacity, layout) {
            Some((_, a)) => {
                assert(self@.vacant(a as int, layout));
                true
            },
            None => false,
        }
    }

    /// Whether there is room for a buffer of `len` bytes and then for its descriptor.
    pub fn can_allocate(&self, len: u32) -> (room: bool)
        requires
            self.inv(),
        ensures
            room == self@.can_allocate(len),
    {
        let capacity: u32 = self.bytes.len() as u32;
        let layout = MemorySlice::layout(len);
        match first_fit(&self.blocks, capacity, layout) {
            Some((i, a)) => {
                let block = Block { start: a, size: len, kind: BlockKind::Buffer };
                let mut trial: Vec<Block> = Vec::new();
                let n: usize = self.blocks.len();
                let mut k: usize = 0;
                while k < n
                    invariant
                        n == self.blocks@.len(),
                        k <= n,
                        trial@ == self.blocks@.subrange(0, k as int),
                    decreases n - k,
                {
                    trial.push(self.blocks[k]);
                    proof {
                        assert(trial@ =~= self.blocks@.subrange(0, k + 1));
                    }
                    k = k + 1;
                }
                proof {
                    assert(trial@ =~= self.blocks@);
                }
                trial.insert(i, block);
                proof {
                    lemma_ordered_insert(self.blocks@, capacity as int, i as int, block);
                    lemma_table_insert(self.blocks@, capacity as int, i as int, block);
                    assert(self@.lowest_vacant(a as int, layout));
                    self@.lemma_lowest_is_placement(a as int, layout);
                    assert(table(trial@) == self@.create(len).blocks);
                }
                match first_fit(&trial, capacity, MemorySlice::descriptor_layout()) {
                    Some((_, h)) => {
                        assert(self@.create(len).vacant(
                            h as int,
                            MemorySlice::descriptor_layout(),
                        ));
                        true
                    },
                    None => false,
                }
            },
            None => false,
        }
    }

    /// Reserves a block of the given layout at the lowest address at which
    /// it fits, and returns that address. The bytes of the block are
    /// whatever the memory held there.
    pub(crate) fn reserve(&mut self, layout: Layout, kind: BlockKind) -> (addr: u32)
        requires
            old(self).inv(),
            layout.valid(),
            old(self)@.has_room(layout),
        ensures
            final(self).inv(),
            addr == old(self)@.placement(layout),
            old(self)@.lowest_vacant(addr as int, layout),
            final(self)@ == old(self)@.reserve(addr as int, layout.size, kind),
    {
        let capacity: u32 = self.bytes.len() as u32;
        match first_fit(&self.blocks, capacity, layout) {
            Some((i, a)) => {
                let block = Block { start: a, size: layout.size, kind };
                proof {
                    lemma_ordered_insert(self.blocks@, capacity as int, i as int, block);
                    lemma_table_insert(self.blocks@, capacity as int, i as int, block);
                    assert(self@.lowest_vacant(a as int, layout));
                    self@.lemma_lowest_is_placement(a as int, layout);
                }
                self.blocks.insert(i, block);
                proof {
                    assert(self@ =~= old(self)@.reserve(a as int, layout.size, kind));
                }
                a
            },
            None => {
                proof {
                    let w = choose|w: int| #[trigger] old(self)@.vacant(w, layout);
                    assert(old(self)@.vacant(w, layout));
                    assert(false);
                }
                0
            },
        }
    }

    /// Gives back the block at address `addr`.
    pub(crate) fn free(&mut self, addr: u32)
        requires
            old(self).inv(),
            old(self)@.blocks.contains_key(addr as int),
        ensures
            final(self).inv(),
            final(self)@ == old(self)@.free(addr as int),
    {
        if let Some(i) = self.position(addr) {
            proof {
                lemma_table_remove(self.blocks@, self.bytes@.len() as int, i as int);
            }
            self.blocks.remove(i);
            proof {
                assert(self@ =~= old(self)@.free(addr as int));
            }
        }
    }

    /// Writes `data` into the memory from address `addr` on.
    pub(crate) fn store(&mut self, addr: u32, data: &[u8])
        requires
            old(self).inv(),
            addr + data@.len() <= old(self)@.capacity(),
        ensures
            final(self).inv(),
            final(self)@ == old(self)@.store(addr as int, data@),
    {
        let n: usize = data.len();
        let base: usize = addr as usize;
        let mut i: usize = 0;
        proof {
            assert(self.bytes.len() == self@.capacity());
            assert(self.bytes@ =~= patch(self.bytes@, addr as int, data@.subrange(0, 0)));
        }
        while i < n
            invariant
                n == data@.len(),
                self.bytes@.len() <= usize::MAX,
                i <= n,
                base == addr,
                base + n <= self.bytes@.len(),
                self.bytes@.len() == old(self).bytes@.len(),
                self.blocks@ == old(self).blocks@,
                self.bytes@ == patch(old(self).bytes@, addr as int, data@.subrange(0, i as int)),
            decreases n - i,
        {
            self.bytes[base + i] = data[i];
            proof {
                assert(self.bytes@ =~= patch(
                    old(self).bytes@,
                    addr as int,
                    data@.subrange(0, i + 1),
                ));
            }
            i = i + 1;
        }
        proof {
            assert(data@.subrange(0, n as int) =~= data@);
            assert(self@ =~= old(self)@.store(addr as int, data@));
        }
    }
}

/// Putting a block into the gap that `first_fit` found keeps the table ordered.
proof fn lemma_ordered_insert(blocks: Seq<Block>, capacity: int, i: int, block: Block)
    requires
        0 <= i <= blocks.len(),
        ordered(blocks, capacity),
        block.start + footprint(block.size) <= capacity,
        forall|j: int| 0 <= j < i ==> blocks[j].start + footprint(blocks[j].size) <= block.start,
        forall|j: int| i <= j < blocks.len() ==> block.start + footprint(block.size) <= blocks[j].start,
    ensures
        ordered(blocks.insert(i, block), capacity),
{
    let after = blocks.insert(i, block);
    assert forall|x: int, y: int| 0 <= x < y < after.len() implies after[x].start + footprint(
        after[x].size,
    ) <= after[y].start by {
        if x < i && y > i {
            assert(after[x] == blocks[x] && after[y] == blocks[y - 1]);
            if x < y - 1 {
                assert(blocks[x].start + footprint(blocks[x].size) <= blocks[y - 1].start);
            }
        } else if x < i && y < i {
            assert(after[x] == blocks[x] && after[y] == blocks[y]);
        } else if x > i {
            assert(after[x] == blocks[x - 1] && after[y] == blocks[y - 1]);
        } else if x == i {
            assert(after[y] == blocks[y - 1]);
        } else {
            assert(after[x] == blocks[x]);
        }
    }
    assert forall|x: int| 0 <= x < after.len() implies after[x].start + footprint(after[x].size)
        <= capacity by {
        if x < i {
            assert(after[x] == blocks[x]);
        } else if x > i {
            assert(after[x] == blocks[x - 1]);
        }
    }
}

} // verus!
