//! The operations on handles: allocate, write, read, deallocate.

use guest_memory::descriptor::MemorySlice;
use guest_memory::exports::{self, allocate, deallocate, read};
use guest_memory::memory::LinearMemory;

/// Whether `[a, a + n)` and `[b, b + m)` have no address in common.
fn no_overlap(a: u32, n: u32, b: u32, m: u32) -> bool {
    a as u64 + n as u64 <= b as u64 || b as u64 + m as u64 <= a as u64
}

#[test]
fn allocate_then_write_read_deallocate() {
    let mut memory = LinearMemory::new(64);
    assert!(memory.can_allocate(4));
    let h1 = allocate(&mut memory, 4);
    assert!(memory.is_live(h1));
    exports::write(&mut memory, h1, &[1, 2, 3, 4]);
    assert_eq!(read(&memory, h1), vec![1, 2, 3, 4]);
    deallocate(&mut memory, h1);
    assert!(!memory.is_live(h1));
}

#[test]
fn two_allocations_do_not_overlap() {
    let mut memory = LinearMemory::new(128);
    let h2 = allocate(&mut memory, 10);
    let h3 = allocate(&mut memory, 10);
    assert_ne!(h2, h3);
    let d2 = memory.descriptor(h2);
    let d3 = memory.descriptor(h3);
    assert_ne!(d2.ptr, d3.ptr);
    assert_eq!(d2.len, 10);
    assert_eq!(d3.len, 10);
    assert!(no_overlap(d2.ptr, d2.len, d3.ptr, d3.len));
}

#[test]
fn allocate_records_the_requested_length() {
    let mut memory = LinearMemory::new(4096);
    for len in [0u32, 1, 2, 3, 4, 5, 7, 8, 9, 16, 100, 255, 256, 1000] {
        assert!(memory.can_allocate(len));
        let handle = allocate(&mut memory, len);
        assert_eq!(memory.descriptor(handle).len, len);
        assert_eq!(read(&memory, handle).len(), len as usize);
    }
}

#[test]
fn write_then_read_gives_the_data_back() {
    let mut memory = LinearMemory::new(1024);
    let lens = [0usize, 1, 5, 8, 33, 200];
    let mut handles = Vec::new();
    for len in lens {
        handles.push(allocate(&mut memory, len as u32));
    }
    for (k, handle) in handles.iter().enumerate() {
        let data: Vec<u8> = (0..lens[k]).map(|i| (i * 7 + k * 31 + 1) as u8).collect();
        exports::write(&mut memory, *handle, &data);
        assert_eq!(read(&memory, *handle), data);
    }
    // Every region still holds what was written to it, whatever was written
    // to the others afterwards.
    for (k, handle) in handles.iter().enumerate() {
        let data: Vec<u8> = (0..lens[k]).map(|i| (i * 7 + k * 31 + 1) as u8).collect();
        assert_eq!(read(&memory, *handle), data);
    }
}

#[test]
fn a_region_can_be_written_and_read_again() {
    let mut memory = LinearMemory::new(64);
    let handle = allocate(&mut memory, 3);
    exports::write(&mut memory, handle, &[9, 8, 7]);
    assert_eq!(read(&memory, handle), vec![9, 8, 7]);
    assert_eq!(read(&memory, handle), vec![9, 8, 7]);
    exports::write(&mut memory, handle, &[0, 255, 128]);
    assert_eq!(read(&memory, handle), vec![0, 255, 128]);
    assert!(memory.is_live(handle));
    assert_eq!(memory.descriptor(handle), MemorySlice { ptr: 0, len: 3 });
}

#[test]
fn write_leaves_other_regions_and_descriptors_alone() {
    let mut memory = LinearMemory::new(256);
    let a = allocate(&mut memory, 6);
    let b = allocate(&mut memory, 6);
    let c = allocate(&mut memory, 6);
    exports::write(&mut memory, a, &[1; 6]);
    exports::write(&mut memory, b, &[2; 6]);
    exports::write(&mut memory, c, &[3; 6]);
    let before = (memory.descriptor(a), memory.descriptor(b), memory.descriptor(c));
    exports::write(&mut memory, b, &[0xee; 6]);
    assert_eq!(read(&memory, a), vec![1; 6]);
    assert_eq!(read(&memory, b), vec![0xee; 6]);
    assert_eq!(read(&memory, c), vec![3; 6]);
    assert_eq!((memory.descriptor(a), memory.descriptor(b), memory.descriptor(c)), before);
}

#[test]
fn zero_length_region() {
    let mut memory = LinearMemory::new(32);
    assert!(memory.can_allocate(0));
    let handle = allocate(&mut memory, 0);
    assert_eq!(memory.descriptor(handle).len, 0);
    assert_eq!(read(&memory, handle), Vec::<u8>::new());
    exports::write(&mut memory, handle, &[]);
    assert_eq!(read(&memory, handle), Vec::<u8>::new());
    deallocate(&mut memory, handle);
    assert!(!memory.is_live(handle));
}

#[test]
fn zero_length_regions_have_addresses_of_their_own() {
    let mut memory = LinearMemory::new(64);
    let a = allocate(&mut memory, 0);
    let b = allocate(&mut memory, 0);
    let c = allocate(&mut memory, 2);
    assert_ne!(a, b);
    assert_ne!(memory.descriptor(a).ptr, memory.descriptor(b).ptr);
    assert_ne!(memory.descriptor(a).ptr, memory.descriptor(c).ptr);
    assert_ne!(memory.descriptor(b).ptr, memory.descriptor(c).ptr);
}

#[test]
fn live_regions_never_overlap() {
    let mut memory = LinearMemory::new(2048);
    let mut live: Vec<u32> = Vec::new();
    // Allocate, free every other region, and allocate again into the gaps.
    for len in [5u32, 0, 17, 8, 1, 64, 3, 12, 0, 30] {
        live.push(allocate(&mut memory, len));
    }
    for k in [8usize, 6, 4, 2, 0] {
        let handle = live.remove(k);
        deallocate(&mut memory, handle);
    }
    for len in [2u32, 9, 40, 0, 7, 100, 1] {
        assert!(memory.can_allocate(len));
        live.push(allocate(&mut memory, len));
    }
    for (i, hi) in live.iter().enumerate() {
        let di = memory.descriptor(*hi);
        assert!(memory.is_live(*hi));
        assert!(di.ptr as u64 + di.len as u64 <= memory.capacity() as u64);
        assert!(*hi as u64 + 8 <= memory.capacity() as u64);
        // A descriptor shares no address with its own region.
        assert!(no_overlap(*hi, 8, di.ptr, di.len));
        for (j, hj) in live.iter().enumerate() {
            if i != j {
                let dj = memory.descriptor(*hj);
                assert_ne!(hi, hj);
                assert_ne!(di.ptr, dj.ptr);
                assert!(no_overlap(di.ptr, di.len, dj.ptr, dj.len));
                assert!(no_overlap(*hi, 8, *hj, 8));
                assert!(no_overlap(*hi, 8, dj.ptr, dj.len));
            }
        }
    }
}

#[test]
fn deallocate_retires_the_handle_and_no_other() {
    let mut memory = LinearMemory::new(256);
    let a = allocate(&mut memory, 4);
    let b = allocate(&mut memory, 4);
    exports::write(&mut memory, a, &[1, 1, 1, 1]);
    exports::write(&mut memory, b, &[2, 2, 2, 2]);
    let region_a = memory.descriptor(a);
    deallocate(&mut memory, a);
    // The handle is live no more: the test a caller makes before a second
    // `deallocate` now fails, and so does the one on the region's bytes.
    assert!(!memory.is_live(a));
    assert!(!memory.holds(&region_a));
    assert!(memory.is_live(b));
    assert_eq!(read(&memory, b), vec![2, 2, 2, 2]);
}

#[test]
fn the_address_of_a_region_is_no_handle() {
    let mut memory = LinearMemory::new(64);
    let handle = allocate(&mut memory, 8);
    let region = memory.descriptor(handle);
    assert!(memory.is_live(handle));
    // The region holds eight bytes, as a descriptor does, but is none.
    assert!(!memory.is_live(region.ptr));
    assert!(!memory.is_live(handle + 1));
    assert!(!memory.is_live(60));
    assert!(memory.holds(&region));
    assert!(!memory.holds(&MemorySlice { ptr: handle, len: 8 }));
    assert!(!memory.holds(&MemorySlice { ptr: region.ptr, len: 7 }));
}
