//! The mathematical state of a linear memory, the transitions that the
//! operations perform on it, and the laws that hold of them.
//!
//! A state is the sequence of bytes in the memory together with a table of
//! the blocks that are reserved in it. A block is either a byte buffer or
//! the storage of a descriptor. A descriptor block is a *handle*: its
//! address is what a host holds, and its eight bytes name the buffer that
//! the handle stands for.

use vstd::prelude::*;
use crate::descriptor::MemorySlice;
use crate::layout::{footprint, Layout};

verus! {

/// What a reserved block is used for.
#[derive(Clone, Copy, Debug)]
pub enum BlockKind {
    /// The bytes of a region.
    Buffer,
    /// The storage of a region's descriptor.
    Descriptor,
}

/// What the block table records of a block, besides its address.
pub struct Slot {
    /// The number of bytes that were asked for.
    pub size: u32,
    pub kind: BlockKind,
}

/// The state of a linear memory.
#[verifier::ext_equal]
pub struct State {
    /// The contents of the memory; its length is the memory's capacity.
    pub bytes: Seq<u8>,
    /// The reserved blocks, by the address of their first byte.
    pub blocks: Map<int, Slot>,
}

/// The ranges `[a, a + n)` and `[b, b + m)` have no address in common.
pub open spec fn apart(a: int, n: int, b: int, m: int) -> bool {
    a + n <= b || b + m <= a
}

/// A block of the given layout can be placed at address `a` among `blocks`
/// in a memory of `capacity` bytes: `a` is aligned, the block ends within
/// the memory and shares no address with a reserved block.
pub open spec fn vacant_in(blocks: Map<int, Slot>, capacity: int, a: int, layout: Layout) -> bool {
    &&& 0 <= a
    &&& a % (layout.align as int) == 0
    &&& a + layout.footprint() <= capacity
    &&& forall|b: int| #[trigger]
        blocks.contains_key(b) ==> apart(a, layout.footprint(), b, footprint(blocks[b].size))
}

/// `bytes` with `data` written over it from address `a` on.
pub open spec fn patch(bytes: Seq<u8>, a: int, data: Seq<u8>) -> Seq<u8> {
    Seq::new(
        bytes.len(),
        |i: int|
            if a <= i < a + data.len() {
                data[i - a]
            } else {
                bytes[i]
            },
    )
}

impl State {
    /// The number of bytes in the memory.
    pub open spec fn capacity(self) -> int {
        self.bytes.len() as int
    }

    // ----- blocks -----

    /// A block of the given layout can be placed at address `a`.
    pub open spec fn vacant(self, a: int, layout: Layout) -> bool {
        vacant_in(self.blocks, self.capacity(), a, layout)
    }

    /// `a` is the lowest address at which a block of the given layout can be placed.
    pub open spec fn lowest_vacant(self, a: int, layout: Layout) -> bool {
        &&& self.vacant(a, layout)
        &&& forall|b: int| #[trigger] self.vacant(b, layout) ==> a <= b
    }

    /// There is an address at which a block of the given layout can be placed.
    pub open spec fn has_room(self, layout: Layout) -> bool {
        exists|a: int| #[trigger] self.vacant(a, layout)
    }

    /// The address at which a block of the given layout is placed: the
    /// lowest at which it can be, where there is one.
    pub open spec fn placement(self, layout: Layout) -> int {
        choose|a: int| #[trigger] self.lowest_vacant(a, layout)
    }

    /// The state after a block of `size` bytes was reserved at address `a`.
    pub open spec fn reserve(self, a: int, size: u32, kind: BlockKind) -> State {
        State { bytes: self.bytes, blocks: self.blocks.insert(a, Slot { size, kind }) }
    }

    /// The state after the block at address `a` was given back.
    pub open spec fn free(self, a: int) -> State {
        State { bytes: self.bytes, blocks: self.blocks.remove(a) }
    }

    /// The state after `data` was written from address `a` on.
    pub open spec fn store(self, a: int, data: Seq<u8>) -> State {
        State { bytes: patch(self.bytes, a, data), blocks: self.blocks }
    }

    /// Every block lies within the memory, and no two blocks share an address.
    pub open spec fn blocks_wf(self) -> bool {
        &&& self.capacity() <= u32::MAX
        &&& forall|a: int| #[trigger]
            self.blocks.contains_key(a) ==> 0 <= a && a + footprint(self.blocks[a].size)
                <= self.capacity()
        &&& forall|a: int, b: int|
            #![trigger self.blocks.contains_key(a), self.blocks.contains_key(b)]
            self.blocks.contains_key(a) && self.blocks.contains_key(b) && a != b ==> apart(
                a,
                footprint(self.blocks[a].size),
                b,
                footprint(self.blocks[b].size),
            )
    }

    // ----- regions and handles -----

    /// `slice` describes a reserved buffer: one starts at `slice.ptr` and
    /// was reserved with `slice.len` bytes.
    pub open spec fn holds(self, slice: MemorySlice) -> bool {
        &&& self.blocks.contains_key(slice.ptr as int)
        &&& self.blocks[slice.ptr as int].size == slice.len
        &&& self.blocks[slice.ptr as int].kind is Buffer
    }

    /// The bytes of the region that `slice` describes.
    pub open spec fn contents(self, slice: MemorySlice) -> Seq<u8> {
        self.bytes.subrange(slice.ptr as int, slice.ptr + slice.len)
    }

    /// `h` is a live handle: the address of a reserved descriptor.
    pub open spec fn is_handle(self, h: int) -> bool {
        self.blocks.contains_key(h) && self.blocks[h].kind is Descriptor
    }

    /// The descriptor stored at address `h`.
    pub open spec fn descriptor(self, h: int) -> MemorySlice {
        MemorySlice::decoding(self.bytes.subrange(h, h + 8))
    }

    /// `slice` describes a reserved buffer that no live handle stands for.
    pub open spec fn detached(self, slice: MemorySlice) -> bool {
        &&& self.holds(slice)
        &&& forall|h: int| #[trigger] self.is_handle(h) ==> self.descriptor(h).ptr != slice.ptr
    }

    /// Every live handle is the address of an aligned eight-byte block whose
    /// contents describe a reserved buffer, and no two live handles stand
    /// for the same buffer.
    pub open spec fn handles_wf(self) -> bool {
        &&& forall|h: int| #[trigger]
            self.is_handle(h) ==> {
                &&& self.blocks[h].size == 8
                &&& h % 4 == 0
                &&& self.holds(self.descriptor(h))
            }
        &&& forall|h1: int, h2: int|
            #![trigger self.is_handle(h1), self.is_handle(h2)]
            self.is_handle(h1) && self.is_handle(h2) && h1 != h2 ==> self.descriptor(h1).ptr
                != self.descriptor(h2).ptr
    }

    /// The invariant of a linear memory.
    pub open spec fn wf(self) -> bool {
        self.blocks_wf() && self.handles_wf()
    }

    // ----- what the operations do -----

    /// The descriptor of the buffer that `create(len)` reserves.
    pub open spec fn created(self, len: u32) -> MemorySlice {
        MemorySlice { ptr: self.placement(MemorySlice::layout(len)) as u32, len }
    }

    /// The state after a buffer of `len` bytes was reserved.
    pub open spec fn create(self, len: u32) -> State {
        self.reserve(self.placement(MemorySlice::layout(len)), len, BlockKind::Buffer)
    }

    /// The handle under which `bind` publishes a descriptor.
    pub open spec fn bound(self) -> int {
        self.placement(MemorySlice::descriptor_layout())
    }

    /// The state after `slice` was published: a descriptor block was
    /// reserved and the encoding of `slice` written into it.
    pub open spec fn bind(self, slice: MemorySlice) -> State {
        self.reserve(self.bound(), 8, BlockKind::Descriptor).store(self.bound(), slice.encoding())
    }

    /// There is room for a buffer of `len` bytes and then for its descriptor.
    pub open spec fn can_allocate(self, len: u32) -> bool {
        &&& self.has_room(MemorySlice::layout(len))
        &&& self.create(len).has_room(MemorySlice::descriptor_layout())
    }

    /// The handle that allocating `len` bytes returns.
    pub open spec fn allocated(self, len: u32) -> int {
        self.create(len).bound()
    }

    /// The state after `len` bytes were allocated.
    pub open spec fn allocate(self, len: u32) -> State {
        self.create(len).bind(self.created(len))
    }

    /// The state after the region of handle `h` was deallocated: both its
    /// descriptor and its buffer were given back.
    pub open spec fn deallocate(self, h: int) -> State {
        self.free(h).free(self.descriptor(h).ptr as int)
    }

    /// The bytes of the region of handle `h`.
    pub open spec fn read(self, h: int) -> Seq<u8> {
        self.contents(self.descriptor(h))
    }

    /// The state after `data` was written into the region of handle `h`.
    pub open spec fn write(self, h: int, data: Seq<u8>) -> State {
        self.store(self.descriptor(h).ptr as int, data)
    }

    // ----- lemmas on blocks -----

    /// Below any address at which a block can be placed there is a lowest one.
    proof fn lemma_least_vacant(self, layout: Layout, w: int)
        requires
            self.vacant(w, layout),
        ensures
            exists|a: int| #[trigger] self.lowest_vacant(a, layout),
        decreases w,
    {
        if forall|b: int| #[trigger] self.vacant(b, layout) ==> w <= b {
            assert(self.lowest_vacant(w, layout));
        } else {
            let b = choose|b: int| #[trigger] self.vacant(b, layout) && !(w <= b);
            self.lemma_least_vacant(layout, b);
        }
    }

    /// Where there is room, the placement is the lowest vacant address.
    pub proof fn lemma_placement(self, layout: Layout)
        requires
            self.has_room(layout),
        ensures
            self.lowest_vacant(self.placement(layout), layout),
    {
        let w = choose|a: int| #[trigger] self.vacant(a, layout);
        self.lemma_least_vacant(layout, w);
    }

    /// The lowest vacant address is the placement.
    pub proof fn lemma_lowest_is_placement(self, a: int, layout: Layout)
        requires
            self.lowest_vacant(a, layout),
        ensures
            self.has_room(layout),
            self.placement(layout) == a,
    {
        let p = self.placement(layout);
        assert(self.lowest_vacant(p, layout));
        assert(self.vacant(a, layout) && self.vacant(p, layout));
    }

    /// Reserving a block at a vacant address keeps the blocks well formed,
    /// and the address was not reserved before.
    pub proof fn lemma_reserve(self, a: int, layout: Layout, kind: BlockKind)
        requires
            self.blocks_wf(),
            self.vacant(a, layout),
        ensures
            !self.blocks.contains_key(a),
            0 <= a && a + layout.footprint() <= self.capacity(),
            self.reserve(a, layout.size, kind).blocks_wf(),
    {
        if self.blocks.contains_key(a) {
            assert(apart(a, layout.footprint(), a, footprint(self.blocks[a].size)));
        }
        let post = self.reserve(a, layout.size, kind);
        assert forall|x: int, y: int|
            #![trigger post.blocks.contains_key(x), post.blocks.contains_key(y)]
            post.blocks.contains_key(x) && post.blocks.contains_key(y) && x != y implies apart(
            x,
            footprint(post.blocks[x].size),
            y,
            footprint(post.blocks[y].size),
        ) by {
            if x == a {
                assert(self.blocks.contains_key(y));
            } else if y == a {
                assert(self.blocks.contains_key(x));
            } else {
                assert(self.blocks.contains_key(x) && self.blocks.contains_key(y));
            }
        }
    }

    /// Writing within the memory, away from a range of addresses, leaves the
    /// bytes in that range as they were.
    pub proof fn lemma_store_elsewhere(self, a: int, data: Seq<u8>, b: int, m: int)
        requires
            0 <= b,
            0 <= m,
            b + m <= self.capacity(),
            apart(a, data.len() as int, b, m),
        ensures
            self.store(a, data).bytes.subrange(b, b + m) == self.bytes.subrange(b, b + m),
    {
        assert(self.store(a, data).bytes.subrange(b, b + m) =~= self.bytes.subrange(b, b + m));
    }

    /// Writing within the memory puts the data where it was written.
    pub proof fn lemma_store_there(self, a: int, data: Seq<u8>)
        requires
            0 <= a,
            a + data.len() <= self.capacity(),
        ensures
            self.store(a, data).bytes.subrange(a, a + data.len()) == data,
            self.store(a, data).capacity() == self.capacity(),
    {
        assert(self.store(a, data).bytes.subrange(a, a + data.len()) =~= data);
    }

    // ----- laws of the single steps -----

    /// Reserving a buffer keeps the memory well formed. The buffer is
    /// detached, and every live handle stays live and stands for the same
    /// region with the same bytes.
    pub proof fn lemma_create(self, len: u32)
        requires
            self.wf(),
            self.has_room(MemorySlice::layout(len)),
        ensures
            self.create(len).wf(),
            self.created(len).ptr == self.placement(MemorySlice::layout(len)),
            !self.blocks.contains_key(self.created(len).ptr as int),
            self.create(len).detached(self.created(len)),
            forall|h: int| self.create(len).is_handle(h) == self.is_handle(h),
            forall|s: MemorySlice| self.holds(s) ==> #[trigger] self.create(len).holds(s),
            forall|s: MemorySlice| self.detached(s) ==> #[trigger] self.create(len).detached(s),
    {
        let layout = MemorySlice::layout(len);
        let p = self.placement(layout);
        let post = self.create(len);
        self.lemma_placement(layout);
        self.lemma_reserve(p, layout, BlockKind::Buffer);
        assert forall|h: int| post.is_handle(h) == self.is_handle(h) by {}
        assert forall|h: int| #[trigger] post.is_handle(h) implies {
            &&& post.blocks[h].size == 8
            &&& h % 4 == 0
            &&& post.holds(post.descriptor(h))
        } by {
            assert(self.is_handle(h));
        }
        assert forall|h1: int, h2: int|
            #![trigger post.is_handle(h1), post.is_handle(h2)]
            post.is_handle(h1) && post.is_handle(h2) && h1 != h2 implies post.descriptor(h1).ptr
            != post.descriptor(h2).ptr by {
            assert(self.is_handle(h1) && self.is_handle(h2));
        }
        assert forall|h: int| #[trigger] post.is_handle(h) implies post.descriptor(h).ptr
            != self.created(len).ptr by {
            assert(self.is_handle(h));
        }
        assert forall|s: MemorySlice| self.detached(s) implies #[trigger] post.detached(s) by {
            assert forall|h: int| #[trigger] post.is_handle(h) implies post.descriptor(h).ptr
                != s.ptr by {
                assert(self.is_handle(h));
            }
        }
    }

    /// Publishing a detached buffer keeps the memory well formed. The new
    /// handle is live and stands for that buffer; every other handle is live
    /// exactly if it was, and stands for the same region with the same bytes.
    pub proof fn lemma_bind(self, slice: MemorySlice)
        requires
            self.wf(),
            self.detached(slice),
            self.has_room(MemorySlice::descriptor_layout()),
        ensures
            self.bind(slice).wf(),
            0 <= self.bound() <= u32::MAX,
            !self.is_handle(self.bound()),
            self.bind(slice).is_handle(self.bound()),
            self.bind(slice).descriptor(self.bound()) == slice,
            self.bind(slice).contents(slice) == self.contents(slice),
            forall|h: int|
                h != self.bound() ==> self.bind(slice).is_handle(h) == self.is_handle(h),
            forall|h: int| #[trigger]
                self.is_handle(h) ==> {
                    &&& self.bind(slice).descriptor(h) == self.descriptor(h)
                    &&& self.bind(slice).read(h) == self.read(h)
                },
    {
        let layout = MemorySlice::descriptor_layout();
        let h0 = self.bound();
        let mid = self.reserve(h0, 8, BlockKind::Descriptor);
        let post = self.bind(slice);
        self.lemma_placement(layout);
        self.lemma_reserve(h0, layout, BlockKind::Descriptor);
        slice.lemma_decoding_of_encoding();
        mid.lemma_store_there(h0, slice.encoding());
        assert(post.descriptor(h0) == slice);
        assert(self.blocks.contains_key(slice.ptr as int));
        assert(apart(h0, 8, slice.ptr as int, footprint(slice.len)));
        mid.lemma_store_elsewhere(h0, slice.encoding(), slice.ptr as int, slice.len as int);
        assert forall|h: int| #[trigger] self.is_handle(h) implies {
            &&& post.descriptor(h) == self.descriptor(h)
            &&& post.read(h) == self.read(h)
        } by {
            let d = self.descriptor(h);
            assert(self.holds(d));
            assert(self.blocks.contains_key(h));
            assert(self.blocks.contains_key(d.ptr as int));
            assert(apart(h0, 8, h, 8));
            assert(apart(h0, 8, d.ptr as int, footprint(d.len)));
            mid.lemma_store_elsewhere(h0, slice.encoding(), h, 8);
            mid.lemma_store_elsewhere(h0, slice.encoding(), d.ptr as int, d.len as int);
        }
        assert forall|h: int| #[trigger] post.is_handle(h) implies {
            &&& post.blocks[h].size == 8
            &&& h % 4 == 0
            &&& post.holds(post.descriptor(h))
        } by {
            if h != h0 {
                assert(self.is_handle(h));
                assert(self.holds(self.descriptor(h)));
            }
        }
        assert forall|h1: int, h2: int|
            #![trigger post.is_handle(h1), post.is_handle(h2)]
            post.is_handle(h1) && post.is_handle(h2) && h1 != h2 implies post.descriptor(h1).ptr
            != post.descriptor(h2).ptr by {
            if h1 != h0 {
                assert(self.is_handle(h1));
            }
            if h2 != h0 {
                assert(self.is_handle(h2));
            }
        }
    }

    /// Withdrawing a live handle keeps the memory well formed. The handle is
    /// live no more, the buffer it stood for is detached and keeps its
    /// bytes, and every other handle is as it was.
    pub proof fn lemma_unbind(self, h: int)
        requires
            self.wf(),
            self.is_handle(h),
        ensures
            self.free(h).wf(),
            !self.free(h).is_handle(h),
            self.free(h).detached(self.descriptor(h)),
            self.free(h).contents(self.descriptor(h)) == self.read(h),
            forall|k: int| k != h ==> self.free(h).is_handle(k) == self.is_handle(k),
            forall|k: int|
                #![trigger self.free(h).descriptor(k)]
                #![trigger self.free(h).read(k)]
                self.free(h).descriptor(k) == self.descriptor(k) && self.free(h).read(k)
                    == self.read(k),
    {
        let post = self.free(h);
        let d = self.descriptor(h);
        assert(self.holds(d));
        assert forall|k: int| #[trigger] post.is_handle(k) implies {
            &&& post.blocks[k].size == 8
            &&& k % 4 == 0
            &&& post.holds(post.descriptor(k))
            &&& post.descriptor(k).ptr != d.ptr
        } by {
            assert(self.is_handle(k));
            assert(self.holds(self.descriptor(k)));
        }
        assert forall|h1: int, h2: int|
            #![trigger post.is_handle(h1), post.is_handle(h2)]
            post.is_handle(h1) && post.is_handle(h2) && h1 != h2 implies post.descriptor(h1).ptr
            != post.descriptor(h2).ptr by {
            assert(self.is_handle(h1) && self.is_handle(h2));
        }
    }

    /// Giving back a detached buffer keeps the memory well formed, and every
    /// handle is as it was.
    pub proof fn lemma_release(self, slice: MemorySlice)
        requires
            self.wf(),
            self.detached(slice),
        ensures
            self.free(slice.ptr as int).wf(),
            !self.free(slice.ptr as int).holds(slice),
            forall|k: int| self.free(slice.ptr as int).is_handle(k) == self.is_handle(k),
            forall|k: int|
                #![trigger self.free(slice.ptr as int).descriptor(k)]
                #![trigger self.free(slice.ptr as int).read(k)]
                self.free(slice.ptr as int).descriptor(k) == self.descriptor(k) && self.free(
                    slice.ptr as int,
                ).read(k) == self.read(k),
    {
        let post = self.free(slice.ptr as int);
        assert forall|k: int| #[trigger] post.is_handle(k) implies {
            &&& post.blocks[k].size == 8
            &&& k % 4 == 0
            &&& post.holds(post.descriptor(k))
        } by {
            assert(self.is_handle(k));
            assert(self.holds(self.descriptor(k)));
        }
        assert forall|h1: int, h2: int|
            #![trigger post.is_handle(h1), post.is_handle(h2)]
            post.is_handle(h1) && post.is_handle(h2) && h1 != h2 implies post.descriptor(h1).ptr
            != post.descriptor(h2).ptr by {
            assert(self.is_handle(h1) && self.is_handle(h2));
        }
    }

    /// Writing a region keeps the memory well formed. The region then holds
    /// the data, the blocks and handles are as they were, and every other
    /// reserved buffer keeps its bytes.
    pub proof fn lemma_store_region(self, slice: MemorySlice, data: Seq<u8>)
        requires
            self.wf(),
            self.holds(slice),
            data.len() == slice.len,
        ensures
            self.store(slice.ptr as int, data).wf(),
            self.store(slice.ptr as int, data).contents(slice) == data,
            forall|k: int| #[trigger]
                self.is_handle(k) ==> self.store(slice.ptr as int, data).descriptor(k)
                    == self.descriptor(k),
            forall|s: MemorySlice|
                self.holds(s) && s.ptr != slice.ptr ==> #[trigger] self.store(
                    slice.ptr as int,
                    data,
                ).contents(s) == self.contents(s),
    {
        let p = slice.ptr as int;
        let post = self.store(p, data);
        assert(self.blocks.contains_key(p));
        self.lemma_store_there(p, data);
        assert forall|k: int| #[trigger] self.is_handle(k) implies post.descriptor(k)
            == self.descriptor(k) by {
            assert(self.blocks.contains_key(k));
            assert(apart(p, footprint(slice.len), k, 8));
            self.lemma_store_elsewhere(p, data, k, 8);
        }
        assert forall|s: MemorySlice| self.holds(s) && s.ptr != slice.ptr implies #[trigger]
            post.contents(s) == self.contents(s) by {
            assert(self.blocks.contains_key(s.ptr as int));
            assert(apart(p, footprint(slice.len), s.ptr as int, footprint(s.len)));
            self.lemma_store_elsewhere(p, data, s.ptr as int, s.len as int);
        }
        assert forall|k: int| #[trigger] post.is_handle(k) implies {
            &&& post.blocks[k].size == 8
            &&& k % 4 == 0
            &&& post.holds(post.descriptor(k))
        } by {
            assert(self.is_handle(k));
            assert(self.holds(self.descriptor(k)));
        }
        assert forall|h1: int, h2: int|
            #![trigger post.is_handle(h1), post.is_handle(h2)]
            post.is_handle(h1) && post.is_handle(h2) && h1 != h2 implies post.descriptor(h1).ptr
            != post.descriptor(h2).ptr by {
            assert(self.is_handle(h1) && self.is_handle(h2));
        }
    }

    // ----- laws of the operations on handles -----

    /// Allocating keeps the memory well formed. The handle returned was not
    /// live and now is, the descriptor stored at it records the buffer that
    /// was reserved and the length that was asked for, and every other
    /// handle is as it was: live exactly if it was before, with the same
    /// descriptor and the same bytes.
    pub proof fn lemma_allocate(self, len: u32)
        requires
            self.wf(),
            self.can_allocate(len),
        ensures
            self.allocate(len).wf(),
            0 <= self.allocated(len) <= u32::MAX,
            !self.is_handle(self.allocated(len)),
            self.allocate(len).is_handle(self.allocated(len)),
            self.allocate(len).descriptor(self.allocated(len)) == self.created(len),
            self.allocate(len).descriptor(self.allocated(len)).len == len,
            forall|h: int|
                h != self.allocated(len) ==> self.allocate(len).is_handle(h) == self.is_handle(h),
            forall|h: int| #[trigger]
                self.is_handle(h) ==> {
                    &&& self.allocate(len).descriptor(h) == self.descriptor(h)
                    &&& self.allocate(len).read(h) == self.read(h)
                },
    {
        let mid = self.create(len);
        self.lemma_create(len);
        mid.lemma_bind(self.created(len));
        assert(!self.is_handle(self.allocated(len))) by {
            assert(mid.is_handle(self.allocated(len)) == self.is_handle(self.allocated(len)));
        }
        assert forall|h: int| h != self.allocated(len) implies self.allocate(len).is_handle(h)
            == self.is_handle(h) by {
            assert(mid.is_handle(h) == self.is_handle(h));
        }
        assert forall|h: int| #[trigger] self.is_handle(h) implies {
            &&& self.allocate(len).descriptor(h) == self.descriptor(h)
            &&& self.allocate(len).read(h) == self.read(h)
        } by {
            assert(mid.is_handle(h));
        }
    }

    /// Deallocating a live handle keeps the memory well formed. The handle
    /// is live no more, so that deallocating it a second time is outside the
    /// contract; its descriptor and its buffer are given back; and every
    /// other handle is as it was.
    pub proof fn lemma_deallocate(self, h: int)
        requires
            self.wf(),
            self.is_handle(h),
        ensures
            self.deallocate(h).wf(),
            !self.deallocate(h).is_handle(h),
            !self.deallocate(h).blocks.contains_key(h),
            !self.deallocate(h).blocks.contains_key(self.descriptor(h).ptr as int),
            forall|k: int| k != h ==> self.deallocate(h).is_handle(k) == self.is_handle(k),
            forall|k: int|
                #![trigger self.deallocate(h).descriptor(k)]
                #![trigger self.deallocate(h).read(k)]
                self.deallocate(h).descriptor(k) == self.descriptor(k) && self.deallocate(h).read(k)
                    == self.read(k),
    {
        let mid = self.free(h);
        let d = self.descriptor(h);
        self.lemma_unbind(h);
        mid.lemma_release(d);
        assert forall|k: int| k != h implies self.deallocate(h).is_handle(k) == self.is_handle(
            k,
        ) by {
            assert(mid.is_handle(k) == self.is_handle(k));
        }
        assert(!self.deallocate(h).is_handle(h)) by {
            assert(self.deallocate(h).is_handle(h) == mid.is_handle(h));
        }
        assert forall|k: int|
            #![trigger self.deallocate(h).descriptor(k)]
            #![trigger self.deallocate(h).read(k)]
            self.deallocate(h).descriptor(k) == self.descriptor(k) && self.deallocate(h).read(k)
                == self.read(k) by {
            assert(mid.descriptor(k) == self.descriptor(k) && mid.read(k) == self.read(k));
        }
    }

    /// Deallocating a handle right after it was allocated gives back exactly
    /// the two blocks that allocating reserved: the block table is as it was
    /// before, and so is the room in the memory.
    pub proof fn lemma_allocate_then_deallocate(self, len: u32)
        requires
            self.wf(),
            self.can_allocate(len),
        ensures
            self.allocate(len).deallocate(self.allocated(len)).blocks == self.blocks,
    {
        let mid = self.create(len);
        let h = self.allocated(len);
        self.lemma_create(len);
        mid.lemma_bind(self.created(len));
        mid.lemma_placement(MemorySlice::descriptor_layout());
        mid.lemma_reserve(h, MemorySlice::descriptor_layout(), BlockKind::Descriptor);
        assert(self.allocate(len).deallocate(h).blocks =~= self.blocks);
    }

    /// The round trip: writing data of the region's length through a live
    /// handle and reading through the same handle gives that data back.
    /// Writing keeps the memory well formed, leaves every handle live with
    /// its descriptor, and leaves the bytes of every other region alone.
    pub proof fn lemma_write_then_read(self, h: int, data: Seq<u8>)
        requires
            self.wf(),
            self.is_handle(h),
            data.len() == self.descriptor(h).len,
        ensures
            self.write(h, data).read(h) == data,
            self.write(h, data).wf(),
            forall|k: int| self.write(h, data).is_handle(k) == self.is_handle(k),
            forall|k: int| #[trigger]
                self.is_handle(k) ==> self.write(h, data).descriptor(k) == self.descriptor(k),
            forall|k: int| #[trigger]
                self.is_handle(k) && k != h ==> self.write(h, data).read(k) == self.read(k),
    {
        let d = self.descriptor(h);
        let post = self.write(h, data);
        assert(self.holds(d));
        self.lemma_store_region(d, data);
        assert(post.descriptor(h) == d);
        assert forall|k: int| #[trigger] self.is_handle(k) && k != h implies post.read(k)
            == self.read(k) by {
            let e = self.descriptor(k);
            assert(post.descriptor(k) == e);
            assert(self.holds(e));
            assert(e.ptr != d.ptr);
            assert(post.contents(e) == self.contents(e));
        }
    }

    /// The regions of two live handles share no address, and start at
    /// different addresses even where one of them is empty.
    pub proof fn lemma_regions_apart(self, h1: int, h2: int)
        requires
            self.wf(),
            self.is_handle(h1),
            self.is_handle(h2),
            h1 != h2,
        ensures
            self.descriptor(h1).ptr != self.descriptor(h2).ptr,
            apart(
                self.descriptor(h1).ptr as int,
                self.descriptor(h1).len as int,
                self.descriptor(h2).ptr as int,
                self.descriptor(h2).len as int,
            ),
    {
        let d1 = self.descriptor(h1);
        let d2 = self.descriptor(h2);
        assert(self.holds(d1) && self.holds(d2));
        assert(self.blocks.contains_key(d1.ptr as int) && self.blocks.contains_key(d2.ptr as int));
        assert(apart(d1.ptr as int, footprint(d1.len), d2.ptr as int, footprint(d2.len)));
    }

    /// The region of a live handle lies within the memory, and so does its
    /// descriptor, which shares no address with any region.
    pub proof fn lemma_region_in_bounds(self, h: int)
        requires
            self.wf(),
            self.is_handle(h),
        ensures
            0 <= h,
            h + 8 <= self.capacity(),
            h % 4 == 0,
            self.holds(self.descriptor(h)),
            self.descriptor(h).ptr + self.descriptor(h).len <= self.capacity(),
            self.read(h).len() == self.descriptor(h).len,
            apart(h, 8, self.descriptor(h).ptr as int, self.descriptor(h).len as int),
    {
        let d = self.descriptor(h);
        assert(self.holds(d));
        assert(self.blocks.contains_key(h) && self.blocks.contains_key(d.ptr as int));
        assert(apart(h, footprint(8), d.ptr as int, footprint(d.len)));
    }
}

} // verus!
