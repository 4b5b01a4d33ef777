//! What a host calls: the operations on region descriptors and on handles.
//!
//! A region lives in two steps. [`MemorySlice::new`] reserves its bytes and
//! hands out a descriptor that no handle stands for yet;
//! [`MemorySlice::into_raw_ptr`] stores that descriptor in linear memory and
//! hands out its address, the handle. [`MemorySlice::from_raw_ptr`] and
//! [`MemorySlice::release`] undo the two steps in turn. [`allocate`] and
//! [`deallocate`] do both steps at once; [`read`] and [`write`] reach a
//! region's bytes through its handle.
//!
//! None of the operations tests whether a handle is live or whether data has
//! the region's length: these are preconditions. A caller that cannot know
//! them tests them first, with [`LinearMemory::is_live`],
//! [`LinearMemory::can_allocate`] and the length in
//! [`LinearMemory::descriptor`].

use vstd::prelude::*;
use crate::descriptor::MemorySlice;
use crate::memory::LinearMemory;
use crate::model::{apart, BlockKind};

verus! {

impl MemorySlice {
    /// Reserves a region of `len` bytes at the lowest address at which it
    /// fits, and returns its descriptor. The bytes of the region are
    /// whatever the memory held there. A region of no bytes is reserved like
    /// any other and has an address of its own.
    pub fn new(memory: &mut LinearMemory, len: u32) -> (slice: MemorySlice)
        requires
            old(memory).wf(),
            old(memory)@.has_room(MemorySlice::layout(len)),
        ensures
            final(memory).wf(),
            final(memory)@ == old(memory)@.create(len),
            slice == old(memory)@.created(len),
            slice.len == len,
            old(memory)@.lowest_vacant(slice.ptr as int, MemorySlice::layout(len)),
            final(memory)@.detached(slice),
            final(memory)@.contents(slice) == old(memory)@.contents(slice),
    {
        proof {
            old(memory)@.lemma_create(len);
        }
        let ptr: u32 = memory.reserve(MemorySlice::layout(len), BlockKind::Buffer);
        MemorySlice { ptr, len }
    }

    /// Publishes the descriptor of a detached region: stores it in linear
    /// memory, at the lowest aligned address at which its eight bytes fit,
    /// and returns that address, which is the region's handle from then on.
    pub fn into_raw_ptr(self, memory: &mut LinearMemory) -> (handle: u32)
        requires
            old(memory).wf(),
            old(memory)@.detached(self),
            old(memory)@.has_room(MemorySlice::descriptor_layout()),
        ensures
            final(memory).wf(),
            final(memory)@ == old(memory)@.bind(self),
            handle == old(memory)@.bound(),
            !old(memory)@.is_handle(handle as int),
            final(memory)@.is_handle(handle as int),
            final(memory)@.descriptor(handle as int) == self,
            final(memory)@.bytes.subrange(handle as int, handle + 8) == self.encoding(),
            final(memory)@.read(handle as int) == old(memory)@.contents(self),
    {
        proof {
            old(memory)@.lemma_bind(self);
            old(memory)@.lemma_placement(MemorySlice::descriptor_layout());
            old(memory).lemma_inv();
            old(memory)@.lemma_reserve(
                old(memory)@.bound(),
                MemorySlice::descriptor_layout(),
                BlockKind::Descriptor,
            );
        }
        let handle: u32 = memory.reserve(
            MemorySlice::descriptor_layout(),
            BlockKind::Descriptor,
        );
        let bytes: Vec<u8> = self.encode();
        memory.store(handle, bytes.as_slice());
        handle
    }

    /// Withdraws a live handle: takes the descriptor out of linear memory,
    /// gives its storage back and returns it. The region itself stays
    /// reserved, detached, with its bytes.
    pub fn from_raw_ptr(memory: &mut LinearMemory, handle: u32) -> (slice: MemorySlice)
        requires
            old(memory).wf(),
            old(memory)@.is_handle(handle as int),
        ensures
            final(memory).wf(),
            final(memory)@ == old(memory)@.free(handle as int),
            slice == old(memory)@.descriptor(handle as int),
            !final(memory)@.is_handle(handle as int),
            final(memory)@.detached(slice),
            final(memory)@.contents(slice) == old(memory)@.read(handle as int),
    {
        proof {
            old(memory)@.lemma_unbind(handle as int);
            old(memory)@.lemma_region_in_bounds(handle as int);
        }
        let slice = memory.descriptor(handle);
        memory.free(handle);
        slice
    }

    /// Copies the bytes of the region out of linear memory. The region stays
    /// as it is and can be read and written again.
    pub fn read(&self, memory: &LinearMemory) -> (bytes: Vec<u8>)
        requires
            memory.wf(),
            memory@.holds(*self),
        ensures
            bytes@ == memory@.contents(*self),
            bytes@.len() == self.len,
    {
        proof {
            assert(memory@.blocks.contains_key(self.ptr as int));
        }
        memory.load(self.ptr, self.len)
    }

    /// Copies `data`, which has the region's length, over the bytes of the
    /// region. Nothing else in the memory changes.
    pub fn write(&self, memory: &mut LinearMemory, data: &[u8])
        requires
            old(memory).wf(),
            old(memory)@.holds(*self),
            data@.len() == self.len,
        ensures
            final(memory).wf(),
            final(memory)@ == old(memory)@.store(self.ptr as int, data@),
            final(memory)@.contents(*self) == data@,
            final(memory)@.holds(*self),
    {
        proof {
            old(memory)@.lemma_store_region(*self, data@);
            assert(old(memory)@.blocks.contains_key(self.ptr as int));
        }
        memory.store(self.ptr, data);
    }

    /// Gives the bytes of a detached region back.
    pub fn release(self, memory: &mut LinearMemory)
        requires
            old(memory).wf(),
            old(memory)@.detached(self),
        ensures
            final(memory).wf(),
            final(memory)@ == old(memory)@.free(self.ptr as int),
            !final(memory)@.holds(self),
    {
        proof {
            old(memory)@.lemma_release(self);
        }
        memory.free(self.ptr);
    }
}

/// Allocates a region of `len` bytes and returns its handle.
///
/// The bytes of the region are reserved first, then its descriptor, each at
/// the lowest address at which it fits. The descriptor at the handle records
/// the region's address and the length `len`. The handle was not live before
/// and is live now; every other handle is live exactly if it was, with the
/// same descriptor and the same bytes; and the new region shares no address
/// with the region of any other live handle.
pub fn allocate(memory: &mut LinearMemory, len: u32) -> (handle: u32)
    requires
        old(memory).wf(),
        old(memory)@.can_allocate(len),
    ensures
        final(memory).wf(),
        final(memory)@ == old(memory)@.allocate(len),
        handle == old(memory)@.allocated(len),
        !old(memory)@.is_handle(handle as int),
        final(memory)@.is_handle(handle as int),
        final(memory)@.descriptor(handle as int) == old(memory)@.created(len),
        final(memory)@.descriptor(handle as int).len == len,
        final(memory)@.bytes.subrange(handle as int, handle + 8) == old(memory)@.created(
            len,
        ).encoding(),
        final(memory)@.read(handle as int) == old(memory)@.contents(old(memory)@.created(len)),
        final(memory)@.read(handle as int).len() == len,
        forall|h: int|
            h != handle ==> final(memory)@.is_handle(h) == old(memory)@.is_handle(h),
        forall|h: int| #[trigger]
            old(memory)@.is_handle(h) ==> {
                &&& final(memory)@.descriptor(h) == old(memory)@.descriptor(h)
                &&& final(memory)@.read(h) == old(memory)@.read(h)
                &&& final(memory)@.descriptor(h).ptr != final(memory)@.descriptor(
                    handle as int,
                ).ptr
                &&& apart(
                    final(memory)@.descriptor(h).ptr as int,
                    final(memory)@.descriptor(h).len as int,
                    final(memory)@.descriptor(handle as int).ptr as int,
                    len as int,
                )
            },
{
    proof {
        old(memory)@.lemma_allocate(len);
        old(memory)@.allocate(len).lemma_region_in_bounds(old(memory)@.allocated(len));
        assert forall|h: int| #[trigger] old(memory)@.is_handle(h) implies {
            &&& old(memory)@.allocate(len).descriptor(h).ptr != old(memory)@.allocate(
                len,
            ).descriptor(old(memory)@.allocated(len)).ptr
            &&& apart(
                old(memory)@.allocate(len).descriptor(h).ptr as int,
                old(memory)@.allocate(len).descriptor(h).len as int,
                old(memory)@.allocate(len).descriptor(old(memory)@.allocated(len)).ptr as int,
                len as int,
            )
        } by {
            old(memory)@.allocate(len).lemma_regions_apart(h, old(memory)@.allocated(len));
        }
    }
    MemorySlice::new(memory, len).into_raw_ptr(memory)
}

/// Deallocates the region of a live handle: gives back its descriptor and
/// its bytes.
///
/// The handle is live no more, so no operation may be given it again, this
/// one included: nothing here tests that, the precondition demands it. Every
/// other handle is live exactly if it was, with the same descriptor and the
/// same bytes.
pub fn deallocate(memory: &mut LinearMemory, handle: u32)
    requires
        old(memory).wf(),
        old(memory)@.is_handle(handle as int),
    ensures
        final(memory).wf(),
        final(memory)@ == old(memory)@.deallocate(handle as int),
        !final(memory)@.is_handle(handle as int),
        !final(memory)@.blocks.contains_key(handle as int),
        !final(memory)@.blocks.contains_key(old(memory)@.descriptor(handle as int).ptr as int),
        forall|h: int|
            h != handle ==> final(memory)@.is_handle(h) == old(memory)@.is_handle(h),
        forall|h: int|
            #![trigger final(memory)@.descriptor(h)]
            #![trigger final(memory)@.read(h)]
            final(memory)@.descriptor(h) == old(memory)@.descriptor(h) && final(memory)@.read(h)
                == old(memory)@.read(h),
{
    proof {
        old(memory)@.lemma_deallocate(handle as int);
    }
    MemorySlice::from_raw_ptr(memory, handle).release(memory)
}

/// Copies out the bytes of the region of a live handle: exactly as many as
/// the region's recorded length. The region and its handle stay as they are.
pub fn read(memory: &LinearMemory, handle: u32) -> (bytes: Vec<u8>)
    requires
        memory.wf(),
        memory@.is_handle(handle as int),
    ensures
        bytes@ == memory@.read(handle as int),
        bytes@.len() == memory@.descriptor(handle as int).len,
{
    proof {
        memory@.lemma_region_in_bounds(handle as int);
    }
    memory.descriptor(handle).read(memory)
}

/// Copies `data`, which has the region's recorded length, over the bytes of
/// the region of a live handle.
///
/// Reading through the handle afterwards gives `data` back. Every handle
/// stays live with its descriptor, and the bytes of every other region stay
/// as they were.
pub fn write(memory: &mut LinearMemory, handle: u32, data: &[u8])
    requires
        old(memory).wf(),
        old(memory)@.is_handle(handle as int),
        data@.len() == old(memory)@.descriptor(handle as int).len,
    ensures
        final(memory).wf(),
        final(memory)@ == old(memory)@.write(handle as int, data@),
        final(memory)@.read(handle as int) == data@,
        forall|h: int| final(memory)@.is_handle(h) == old(memory)@.is_handle(h),
        forall|h: int| #[trigger]
            old(memory)@.is_handle(h) ==> final(memory)@.descriptor(h) == old(memory)@.descriptor(
                h,
            ),
        forall|h: int| #[trigger]
            old(memory)@.is_handle(h) && h != handle ==> final(memory)@.read(h) == old(
                memory,
            )@.read(h),
{
    proof {
        old(memory)@.lemma_write_then_read(handle as int, data@);
        old(memory)@.lemma_region_in_bounds(handle as int);
    }
    let slice = memory.descriptor(handle);
    slice.write(memory, data);
}

} // verus!
