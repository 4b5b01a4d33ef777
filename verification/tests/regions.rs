//! The two steps of a region's life, taken one at a time.

use guest_memory::descriptor::MemorySlice;
use guest_memory::exports::{allocate, deallocate};
use guest_memory::memory::LinearMemory;

#[test]
fn a_region_is_reserved_then_published_then_withdrawn_then_released() {
    let mut memory = LinearMemory::new(64);
    assert!(memory.has_room(MemorySlice::layout(5)));
    let slice = MemorySlice::new(&mut memory, 5);
    assert_eq!(slice, MemorySlice { ptr: 0, len: 5 });
    assert!(memory.holds(&slice));
    assert!(memory.is_detached(&slice));

    slice.write(&mut memory, &[5, 4, 3, 2, 1]);
    assert_eq!(slice.read(&memory), vec![5, 4, 3, 2, 1]);

    assert!(memory.has_room(MemorySlice::descriptor_layout()));
    let handle = slice.into_raw_ptr(&mut memory);
    assert_eq!(handle, 8);
    assert!(memory.is_live(handle));
    assert!(memory.holds(&slice));
    assert!(!memory.is_detached(&slice));
    assert_eq!(memory.descriptor(handle), slice);
    assert_eq!(memory.load(handle, 8), vec![0, 0, 0, 0, 5, 0, 0, 0]);

    let again = MemorySlice::from_raw_ptr(&mut memory, handle);
    assert_eq!(again, slice);
    assert!(!memory.is_live(handle));
    assert!(memory.is_detached(&again));
    assert_eq!(again.read(&memory), vec![5, 4, 3, 2, 1]);

    again.release(&mut memory);
    assert!(!memory.holds(&slice));
    assert!(!memory.is_detached(&slice));
}

#[test]
fn allocate_is_new_then_into_raw_ptr() {
    let mut by_steps = LinearMemory::new(128);
    let mut at_once = LinearMemory::new(128);
    for len in [3u32, 0, 20, 8] {
        let handle = MemorySlice::new(&mut by_steps, len).into_raw_ptr(&mut by_steps);
        assert_eq!(allocate(&mut at_once, len), handle);
        assert_eq!(at_once.descriptor(handle), by_steps.descriptor(handle));
    }
    assert_eq!(at_once.load(0, 128), by_steps.load(0, 128));
}

#[test]
fn deallocate_is_from_raw_ptr_then_release() {
    let mut by_steps = LinearMemory::new(128);
    let mut at_once = LinearMemory::new(128);
    let mut handles = Vec::new();
    for len in [3u32, 0, 20, 8] {
        let handle = allocate(&mut by_steps, len);
        assert_eq!(allocate(&mut at_once, len), handle);
        handles.push(handle);
    }
    let gone = handles[2];
    MemorySlice::from_raw_ptr(&mut by_steps, gone).release(&mut by_steps);
    deallocate(&mut at_once, gone);
    for handle in handles {
        assert_eq!(at_once.is_live(handle), by_steps.is_live(handle));
        assert_eq!(at_once.is_live(handle), handle != gone);
    }
    // Both memories place the next region in the same gap.
    assert_eq!(allocate(&mut at_once, 20), allocate(&mut by_steps, 20));
}

#[test]
fn detached_regions_do_not_overlap_bound_ones() {
    let mut memory = LinearMemory::new(128);
    let bound = allocate(&mut memory, 6);
    let loose = MemorySlice::new(&mut memory, 6);
    let region = memory.descriptor(bound);
    assert_ne!(region.ptr, loose.ptr);
    assert!(region.ptr + region.len <= loose.ptr || loose.ptr + loose.len <= region.ptr);
    assert!(memory.is_detached(&loose));
    assert!(!memory.is_detached(&region));
    loose.write(&mut memory, &[1, 2, 3, 4, 5, 6]);
    assert_eq!(memory.descriptor(bound), region);
    assert_eq!(loose.read(&memory), vec![1, 2, 3, 4, 5, 6]);
    assert_eq!(region.read(&memory), vec![0; 6]);
}
