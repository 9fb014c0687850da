use quill::buffer::{Buffer, Growth, GuestMemory, RawBuffer, HEADER_SIZE};
use quill::error::SandboxError;

/// A memory of `size` zero bytes with a buffer header at `raw`.
fn memory_with(size: usize, raw: u32, header: RawBuffer) -> GuestMemory {
    let mut bytes = vec![0u8; size];
    let encoded = header.encode();
    bytes[raw as usize..raw as usize + 12].copy_from_slice(&encoded);
    GuestMemory::new(bytes)
}

/// What a guest does when asked to reserve: it moves the allocation to `to`
/// with the capacity `cap` and keeps the contents.
fn relocate(memory: &mut GuestMemory, raw: u32, to: u32, cap: u32) {
    let header = RawBuffer::decode(&memory.bytes[raw as usize..raw as usize + 12]);
    let contents: Vec<u8> =
        memory.bytes[header.ptr as usize..(header.ptr + header.len) as usize].to_vec();
    memory.bytes[to as usize..to as usize + contents.len()].copy_from_slice(&contents);
    let moved = RawBuffer { ptr: to, cap, len: header.len };
    memory.bytes[raw as usize..raw as usize + 12].copy_from_slice(&moved.encode());
}

#[test]
fn header_is_three_little_endian_words() {
    let header = RawBuffer { ptr: 0x1122_3344, cap: 5, len: 3 };
    assert_eq!(HEADER_SIZE, 12);
    assert_eq!(header.encode(), vec![0x44, 0x33, 0x22, 0x11, 5, 0, 0, 0, 3, 0, 0, 0]);
    assert_eq!(
        RawBuffer::decode(&[0x44, 0x33, 0x22, 0x11, 5, 0, 0, 0, 3, 0, 0, 0]),
        header
    );
    let other = RawBuffer { ptr: u32::MAX, cap: 0x0100_0000, len: 0x0001_0000 };
    assert_eq!(RawBuffer::decode(&other.encode()), other);
}

#[test]
fn header_is_read_from_guest_memory() {
    let header = RawBuffer { ptr: 32, cap: 16, len: 4 };
    let memory = memory_with(64, 8, header);
    assert_eq!(memory.size(), 64);
    assert_eq!(Buffer::new(8).header(&memory), Ok(header));
}

#[test]
fn header_outside_memory_is_invalid() {
    let memory = GuestMemory::new(vec![0u8; 20]);
    assert_eq!(Buffer::new(9).header(&memory), Err(SandboxError::InvalidHeader));
    assert_eq!(Buffer::new(8).header(&memory), Ok(RawBuffer { ptr: 0, cap: 0, len: 0 }));
    assert_eq!(Buffer::new(u32::MAX).header(&memory), Err(SandboxError::InvalidHeader));
    let empty = GuestMemory::new(Vec::new());
    assert_eq!(Buffer::new(0).header(&empty), Err(SandboxError::InvalidHeader));
}

#[test]
fn header_with_length_beyond_capacity_is_invalid() {
    let memory = memory_with(64, 0, RawBuffer { ptr: 16, cap: 4, len: 5 });
    assert_eq!(Buffer::new(0).header(&memory), Err(SandboxError::InvalidHeader));
    assert_eq!(Buffer::new(0).as_slice(&memory), Err(SandboxError::InvalidHeader));
}

#[test]
fn allocation_outside_memory_is_invalid() {
    let memory = memory_with(64, 0, RawBuffer { ptr: 60, cap: 5, len: 0 });
    assert_eq!(Buffer::new(0).header(&memory), Err(SandboxError::InvalidHeader));
    let fits = memory_with(64, 0, RawBuffer { ptr: 60, cap: 4, len: 0 });
    assert_eq!(Buffer::new(0).header(&fits), Ok(RawBuffer { ptr: 60, cap: 4, len: 0 }));
    let wraps = memory_with(64, 0, RawBuffer { ptr: u32::MAX, cap: u32::MAX, len: 0 });
    assert_eq!(Buffer::new(0).header(&wraps), Err(SandboxError::InvalidHeader));
}

#[test]
fn allocation_that_overlaps_the_header_is_invalid() {
    let memory = memory_with(64, 16, RawBuffer { ptr: 20, cap: 8, len: 0 });
    assert_eq!(Buffer::new(16).header(&memory), Err(SandboxError::InvalidHeader));
    let before = memory_with(64, 16, RawBuffer { ptr: 8, cap: 8, len: 0 });
    assert_eq!(Buffer::new(16).header(&before), Ok(RawBuffer { ptr: 8, cap: 8, len: 0 }));
    let behind = memory_with(64, 16, RawBuffer { ptr: 28, cap: 8, len: 0 });
    assert_eq!(Buffer::new(16).header(&behind), Ok(RawBuffer { ptr: 28, cap: 8, len: 0 }));
}

#[test]
fn as_slice_reads_the_valid_bytes() {
    let mut memory = memory_with(64, 0, RawBuffer { ptr: 16, cap: 8, len: 3 });
    memory.bytes[16] = 7;
    memory.bytes[17] = 8;
    memory.bytes[18] = 9;
    memory.bytes[19] = 10;
    assert_eq!(Buffer::new(0).as_slice(&memory), Ok(&[7u8, 8, 9][..]));
}

#[test]
fn clear_sets_the_length_to_zero_and_nothing_else() {
    let mut memory = memory_with(64, 0, RawBuffer { ptr: 16, cap: 8, len: 3 });
    memory.bytes[16] = 7;
    let buffer = Buffer::new(0);
    assert_eq!(buffer.clear(&mut memory), Ok(()));
    assert_eq!(buffer.header(&memory), Ok(RawBuffer { ptr: 16, cap: 8, len: 0 }));
    assert_eq!(buffer.as_slice(&memory), Ok(&[][..]));
    assert_eq!(memory.bytes[16], 7);
    let once = memory.bytes.clone();
    assert_eq!(buffer.clear(&mut memory), Ok(()));
    assert_eq!(memory.bytes, once);
}

#[test]
fn clear_of_an_invalid_buffer_fails_and_changes_nothing() {
    let mut memory = memory_with(64, 0, RawBuffer { ptr: 16, cap: 2, len: 3 });
    let before = memory.bytes.clone();
    assert_eq!(Buffer::new(0).clear(&mut memory), Err(SandboxError::InvalidHeader));
    assert_eq!(memory.bytes, before);
}

#[test]
fn clear_then_extend_reads_back_the_bytes() {
    let mut memory = memory_with(64, 0, RawBuffer { ptr: 16, cap: 8, len: 5 });
    let buffer = Buffer::new(0);
    assert_eq!(buffer.clear(&mut memory), Ok(()));
    assert_eq!(buffer.extend_from_slice(&mut memory, &[1, 2, 3, 4]), Ok(Growth::Unneeded));
    assert_eq!(buffer.as_slice(&memory), Ok(&[1u8, 2, 3, 4][..]));
    assert_eq!(buffer.header(&memory), Ok(RawBuffer { ptr: 16, cap: 8, len: 4 }));
}

#[test]
fn extend_twice_concatenates() {
    let mut memory = memory_with(64, 0, RawBuffer { ptr: 16, cap: 8, len: 0 });
    let buffer = Buffer::new(0);
    assert_eq!(buffer.extend_from_slice(&mut memory, &[1, 2, 3]), Ok(Growth::Unneeded));
    assert_eq!(buffer.extend_from_slice(&mut memory, &[4, 5]), Ok(Growth::Unneeded));
    assert_eq!(buffer.as_slice(&memory), Ok(&[1u8, 2, 3, 4, 5][..]));
    assert_eq!(&memory.bytes[16..24], &[1, 2, 3, 4, 5, 0, 0, 0]);
    assert_eq!(buffer.extend_from_slice(&mut memory, &[]), Ok(Growth::Unneeded));
    assert_eq!(buffer.as_slice(&memory), Ok(&[1u8, 2, 3, 4, 5][..]));
}

#[test]
fn extend_beyond_capacity_asks_for_growth_and_writes_nothing() {
    let mut memory = memory_with(64, 0, RawBuffer { ptr: 16, cap: 4, len: 2 });
    let before = memory.bytes.clone();
    let buffer = Buffer::new(0);
    assert_eq!(
        buffer.extend_from_slice(&mut memory, &[1, 2, 3]),
        Ok(Growth::Needed { additional: 3 })
    );
    assert_eq!(memory.bytes, before);
    assert_eq!(buffer.extend_from_slice(&mut memory, &[1, 2]), Ok(Growth::Unneeded));
}

#[test]
fn grow_through_reserve() {
    let mut memory = memory_with(64, 0, RawBuffer { ptr: 12, cap: 4, len: 0 });
    let buffer = Buffer::new(0);
    let payload = [10u8, 11, 12, 13, 14, 15, 16, 17, 18, 19];
    let asked = buffer.extend_from_slice(&mut memory, &payload);
    assert_eq!(asked, Ok(Growth::Needed { additional: 10 }));
    relocate(&mut memory, 0, 32, 16);
    assert_eq!(buffer.extend_reserved(&mut memory, &payload), Ok(()));
    let header = buffer.header(&memory).unwrap();
    assert!(header.cap >= 10);
    assert_eq!(header.len, 10);
    assert_eq!(buffer.as_slice(&memory), Ok(&payload[..]));
}

#[test]
fn growth_that_moves_the_allocation_preserves_contents() {
    let mut memory = memory_with(96, 4, RawBuffer { ptr: 16, cap: 4, len: 0 });
    let buffer = Buffer::new(4);
    assert_eq!(buffer.extend_from_slice(&mut memory, &[1, 2, 3]), Ok(Growth::Unneeded));
    assert_eq!(
        buffer.extend_from_slice(&mut memory, &[4, 5, 6]),
        Ok(Growth::Needed { additional: 3 })
    );
    relocate(&mut memory, 4, 48, 32);
    assert_eq!(buffer.extend_reserved(&mut memory, &[4, 5, 6]), Ok(()));
    assert_eq!(buffer.as_slice(&memory), Ok(&[1u8, 2, 3, 4, 5, 6][..]));
    assert_eq!(buffer.header(&memory), Ok(RawBuffer { ptr: 48, cap: 32, len: 6 }));
}

#[test]
fn extend_after_a_reserve_that_did_not_grow_fails() {
    let mut memory = memory_with(64, 0, RawBuffer { ptr: 16, cap: 4, len: 2 });
    let before = memory.bytes.clone();
    assert_eq!(
        Buffer::new(0).extend_reserved(&mut memory, &[1, 2, 3]),
        Err(SandboxError::ReserveFailed)
    );
    assert_eq!(memory.bytes, before);
}

#[test]
fn extend_of_an_invalid_buffer_fails() {
    let mut memory = memory_with(64, 0, RawBuffer { ptr: 70, cap: 4, len: 0 });
    assert_eq!(
        Buffer::new(0).extend_from_slice(&mut memory, &[1]),
        Err(SandboxError::InvalidHeader)
    );
    assert_eq!(
        Buffer::new(0).extend_reserved(&mut memory, &[1]),
        Err(SandboxError::InvalidHeader)
    );
}

#[test]
fn reserve_tells_whether_growth_is_needed() {
    let memory = memory_with(64, 0, RawBuffer { ptr: 16, cap: 8, len: 6 });
    let buffer = Buffer::new(0);
    assert_eq!(buffer.reserve(&memory, 2), Ok(Growth::Unneeded));
    assert_eq!(buffer.reserve(&memory, 3), Ok(Growth::Needed { additional: 3 }));
    assert_eq!(buffer.reserve(&memory, u32::MAX), Ok(Growth::Needed { additional: u32::MAX }));
    let invalid = GuestMemory::new(vec![0u8; 4]);
    assert_eq!(buffer.reserve(&invalid, 1), Err(SandboxError::InvalidHeader));
}

#[test]
fn push_appends_one_byte() {
    let mut memory = memory_with(64, 0, RawBuffer { ptr: 16, cap: 2, len: 0 });
    let buffer = Buffer::new(0);
    assert_eq!(buffer.push(&mut memory, 9), Ok(Growth::Unneeded));
    assert_eq!(buffer.push(&mut memory, 8), Ok(Growth::Unneeded));
    assert_eq!(buffer.push(&mut memory, 7), Ok(Growth::Needed { additional: 1 }));
    assert_eq!(buffer.as_slice(&memory), Ok(&[9u8, 8][..]));
}

#[test]
fn vectored_write_reserves_the_total_first() {
    let mut memory = memory_with(64, 0, RawBuffer { ptr: 16, cap: 5, len: 1 });
    memory.bytes[16] = 42;
    let buffer = Buffer::new(0);
    let before = memory.bytes.clone();
    let parts = vec![vec![1u8, 2], vec![], vec![3, 4, 5]];
    assert_eq!(buffer.write_vectored(&mut memory, &parts), Ok(Growth::Needed { additional: 5 }));
    assert_eq!(memory.bytes, before);
    relocate(&mut memory, 0, 32, 8);
    assert_eq!(buffer.write_vectored(&mut memory, &parts), Ok(Growth::Unneeded));
    assert_eq!(buffer.as_slice(&memory), Ok(&[42u8, 1, 2, 3, 4, 5][..]));
}

#[test]
fn respond_replaces_the_contents() {
    let mut memory = memory_with(64, 0, RawBuffer { ptr: 16, cap: 8, len: 6 });
    let buffer = Buffer::new(0);
    assert_eq!(buffer.respond(&mut memory, &[5, 6, 7]), Ok(Growth::Unneeded));
    assert_eq!(buffer.as_slice(&memory), Ok(&[5u8, 6, 7][..]));
    assert_eq!(
        buffer.respond(&mut memory, &[1, 2, 3, 4, 5, 6, 7, 8, 9]),
        Ok(Growth::Needed { additional: 9 })
    );
    assert_eq!(buffer.as_slice(&memory), Ok(&[][..]));
    assert_eq!(buffer.header(&memory), Ok(RawBuffer { ptr: 16, cap: 8, len: 0 }));
}

fn assert_invariant(memory: &GuestMemory, raw: u32) {
    let header = RawBuffer::decode(&memory.bytes[raw as usize..raw as usize + 12]);
    assert!(header.len <= header.cap);
    assert!(header.ptr as usize + header.cap as usize <= memory.bytes.len());
    assert_eq!(Buffer::new(raw).header(memory), Ok(header));
}

#[test]
fn header_stays_valid_through_every_operation() {
    let mut memory = memory_with(128, 8, RawBuffer { ptr: 24, cap: 6, len: 2 });
    let buffer = Buffer::new(8);
    assert_invariant(&memory, 8);
    buffer.extend_from_slice(&mut memory, &[1, 2, 3]).unwrap();
    assert_invariant(&memory, 8);
    buffer.push(&mut memory, 4).unwrap();
    assert_invariant(&memory, 8);
    assert_eq!(buffer.push(&mut memory, 5), Ok(Growth::Needed { additional: 1 }));
    assert_invariant(&memory, 8);
    relocate(&mut memory, 8, 64, 32);
    assert_invariant(&memory, 8);
    buffer.extend_reserved(&mut memory, &[5]).unwrap();
    assert_invariant(&memory, 8);
    buffer.write_vectored(&mut memory, &vec![vec![6, 7], vec![8]]).unwrap();
    assert_invariant(&memory, 8);
    buffer.respond(&mut memory, &[9; 20]).unwrap();
    assert_invariant(&memory, 8);
    assert_eq!(buffer.respond(&mut memory, &[9; 40]), Ok(Growth::Needed { additional: 40 }));
    assert_invariant(&memory, 8);
    buffer.clear(&mut memory).unwrap();
    assert_invariant(&memory, 8);
    assert_eq!(buffer.as_slice(&memory), Ok(&[][..]));
}
