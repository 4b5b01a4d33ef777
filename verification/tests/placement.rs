//! Where blocks are placed, what a descriptor looks like in memory, and when
//! the memory is full.

use guest_memory::descriptor::{MemorySlice, DESCRIPTOR_ALIGN, DESCRIPTOR_SIZE};
use guest_memory::exports::{self, allocate, deallocate, read};
use guest_memory::layout::{occupied, round_up};
use guest_memory::memory::LinearMemory;

#[test]
fn round_up_gives_the_next_multiple() {
    assert_eq!(round_up(0, 4), 0);
    assert_eq!(round_up(1, 4), 4);
    assert_eq!(round_up(3, 4), 4);
    assert_eq!(round_up(4, 4), 4);
    assert_eq!(round_up(5, 4), 8);
    assert_eq!(round_up(22, 4), 24);
    assert_eq!(round_up(17, 1), 17);
    assert_eq!(round_up(10, 3), 12);
    assert_eq!(round_up(4294967295, 4), 4294967296);
    assert_eq!(round_up(4294967295, 4294967295), 4294967295);
    assert_eq!(round_up(1, 4294967295), 4294967295);
}

#[test]
fn a_block_occupies_at_least_one_byte() {
    assert_eq!(occupied(0), 1);
    assert_eq!(occupied(1), 1);
    assert_eq!(occupied(8), 8);
    assert_eq!(occupied(4294967295), 4294967295);
}

#[test]
fn layouts_of_regions_and_descriptors() {
    let region = MemorySlice::layout(10);
    assert_eq!(region.size, 10);
    assert_eq!(region.align, 1);
    let empty = MemorySlice::layout(0);
    assert_eq!(empty.size, 0);
    assert_eq!(empty.align, 1);
    let descriptor = MemorySlice::descriptor_layout();
    assert_eq!(descriptor.size, 8);
    assert_eq!(descriptor.align, 4);
    assert_eq!(DESCRIPTOR_SIZE, 8);
    assert_eq!(DESCRIPTOR_ALIGN, 4);
}

#[test]
fn encode_writes_two_little_endian_words() {
    let slice = MemorySlice { ptr: 0x0403_0201, len: 0x0807_0605 };
    assert_eq!(slice.encode(), vec![1, 2, 3, 4, 5, 6, 7, 8]);
    assert_eq!(MemorySlice { ptr: 0, len: 0 }.encode(), vec![0; 8]);
    assert_eq!(MemorySlice { ptr: u32::MAX, len: 1 }.encode(), vec![255, 255, 255, 255, 1, 0, 0, 0]);
    assert_eq!(MemorySlice { ptr: 256, len: 65536 }.encode(), vec![0, 1, 0, 0, 0, 0, 1, 0]);
}

#[test]
fn decode_undoes_encode() {
    assert_eq!(
        MemorySlice::decode(&[1, 2, 3, 4, 5, 6, 7, 8]),
        MemorySlice { ptr: 0x0403_0201, len: 0x0807_0605 }
    );
    assert_eq!(
        MemorySlice::decode(&[255; 8]),
        MemorySlice { ptr: u32::MAX, len: u32::MAX }
    );
    for slice in [
        MemorySlice { ptr: 0, len: 0 },
        MemorySlice { ptr: 12, len: 10 },
        MemorySlice { ptr: 0xdead_beef, len: 0x0bad_f00d },
        MemorySlice { ptr: u32::MAX, len: u32::MAX },
    ] {
        assert_eq!(MemorySlice::decode(&slice.encode()), slice);
        assert_eq!(slice.encode().len(), 8);
    }
}

#[test]
fn a_new_memory_is_zeroed_and_empty() {
    let memory = LinearMemory::new(40);
    assert_eq!(memory.capacity(), 40);
    assert_eq!(memory.load(0, 40), vec![0u8; 40]);
    assert_eq!(memory.load(40, 0), Vec::<u8>::new());
    assert!(!memory.is_live(0));
    assert!(!memory.is_live(4));
    let none = LinearMemory::new(0);
    assert_eq!(none.capacity(), 0);
    assert!(!none.can_allocate(0));
}

#[test]
fn blocks_go_to_the_lowest_address_at_which_they_fit() {
    let mut memory = LinearMemory::new(64);
    // Four bytes at 0, their descriptor at the next multiple of four.
    let h1 = allocate(&mut memory, 4);
    assert_eq!(h1, 4);
    assert_eq!(memory.descriptor(h1), MemorySlice { ptr: 0, len: 4 });
    // Ten bytes after the first descriptor; their descriptor skips two
    // bytes to be aligned.
    let h2 = allocate(&mut memory, 10);
    assert_eq!(memory.descriptor(h2), MemorySlice { ptr: 12, len: 10 });
    assert_eq!(h2, 24);
    // One byte fits into the two that were skipped; the descriptor does not.
    let h3 = allocate(&mut memory, 1);
    assert_eq!(memory.descriptor(h3), MemorySlice { ptr: 22, len: 1 });
    assert_eq!(h3, 32);
}

#[test]
fn the_descriptor_can_be_read_at_the_handle() {
    let mut memory = LinearMemory::new(64);
    let _ = allocate(&mut memory, 4);
    let handle = allocate(&mut memory, 10);
    assert_eq!(memory.load(handle, 8), vec![12, 0, 0, 0, 10, 0, 0, 0]);
    let seen = MemorySlice::decode(&memory.load(handle, 8));
    assert_eq!(seen, memory.descriptor(handle));
    // What the host reads at the region's address is what was written.
    exports::write(&mut memory, handle, &[10, 9, 8, 7, 6, 5, 4, 3, 2, 1]);
    assert_eq!(memory.load(seen.ptr, seen.len), vec![10, 9, 8, 7, 6, 5, 4, 3, 2, 1]);
    assert_eq!(read(&memory, handle), memory.load(12, 10));
}

#[test]
fn a_region_is_not_zeroed_when_it_is_reserved() {
    let mut memory = LinearMemory::new(32);
    let first = allocate(&mut memory, 4);
    exports::write(&mut memory, first, &[0xaa, 0xbb, 0xcc, 0xdd]);
    deallocate(&mut memory, first);
    // The same bytes are handed out again, with what was left in them.
    let second = allocate(&mut memory, 4);
    assert_eq!(memory.descriptor(second), MemorySlice { ptr: 0, len: 4 });
    assert_eq!(read(&memory, second), vec![0xaa, 0xbb, 0xcc, 0xdd]);
}

#[test]
fn freed_space_is_used_again() {
    let mut memory = LinearMemory::new(64);
    let h1 = allocate(&mut memory, 4);
    let h2 = allocate(&mut memory, 10);
    exports::write(&mut memory, h2, &[7; 10]);
    deallocate(&mut memory, h1);
    // Three bytes at 0 again; the descriptor fits between them and the
    // second region.
    let h3 = allocate(&mut memory, 3);
    assert_eq!(memory.descriptor(h3), MemorySlice { ptr: 0, len: 3 });
    assert_eq!(h3, 4);
    assert!(memory.is_live(h2));
    assert_eq!(memory.descriptor(h2), MemorySlice { ptr: 12, len: 10 });
    assert_eq!(read(&memory, h2), vec![7; 10]);
}

#[test]
fn a_full_memory_has_no_room() {
    let mut memory = LinearMemory::new(16);
    assert!(!memory.can_allocate(17));
    assert!(!memory.can_allocate(u32::MAX));
    // Sixteen bytes fit, but leave no room for their descriptor.
    assert!(memory.has_room(MemorySlice::layout(16)));
    assert!(!memory.can_allocate(16));
    assert!(!memory.can_allocate(9));
    assert!(memory.can_allocate(8));
    let handle = allocate(&mut memory, 4);
    assert_eq!(handle, 4);
    // Four bytes are left, after the descriptor: room for bytes, none for a
    // second descriptor.
    assert!(memory.has_room(MemorySlice::layout(4)));
    assert!(!memory.has_room(MemorySlice::layout(5)));
    assert!(!memory.has_room(MemorySlice::descriptor_layout()));
    assert!(!memory.can_allocate(4));
    assert!(!memory.can_allocate(0));
    deallocate(&mut memory, handle);
    assert!(memory.can_allocate(8));
    assert!(memory.can_allocate(0));
}

#[test]
fn the_whole_memory_can_be_one_region() {
    let mut memory = LinearMemory::new(24);
    assert!(memory.can_allocate(16));
    assert!(!memory.can_allocate(17));
    let handle = allocate(&mut memory, 16);
    assert_eq!(handle, 16);
    assert_eq!(memory.descriptor(handle), MemorySlice { ptr: 0, len: 16 });
    let data: Vec<u8> = (1..=16).collect();
    exports::write(&mut memory, handle, &data);
    assert_eq!(read(&memory, handle), data);
    assert_eq!(memory.load(16, 8), vec![0, 0, 0, 0, 16, 0, 0, 0]);
}
