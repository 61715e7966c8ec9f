use sched_alloc::bits::{FromBit, ToBit};
use sched_alloc::memory::{ByteMemory, WriteAndReadWords};
use sched_alloc::simple_allocator::{BlockInfo, SimpleAllocator, DEFAULT_WORKING_MEMORY_SIZE};

fn ready_allocator(size: u64) -> SimpleAllocator {
    let mut a = SimpleAllocator::with_working_memory_size(size);
    a.install_memory(ByteMemory { bytes: vec![0u8; size as usize] });
    a
}

fn block(start: usize, size: usize, filled: bool) -> BlockInfo {
    BlockInfo { start, size, filled }
}

#[test]
fn to_bit_and_from_bit() {
    assert_eq!(true.to_bit(), 1);
    assert_eq!(false.to_bit(), 0);
    assert!(!bool::from_bit(0));
    assert!(bool::from_bit(1));
    assert!(bool::from_bit(6));
}

#[test]
fn bit_round_trip() {
    assert!(bool::from_bit(true.to_bit()));
    assert!(!bool::from_bit(false.to_bit()));
}

#[test]
fn word_write_then_read() {
    let mut m = ByteMemory { bytes: vec![0u8; 24] };
    m.write_word(8, 0x0102_0304_0506_0708);
    assert_eq!(m.read_word(8), 0x0102_0304_0506_0708);
    assert_eq!(m.bytes[8], 0x08);
    assert_eq!(m.bytes[15], 0x01);
    assert_eq!(m.read_word(0), 0);
    assert_eq!(m.read_word(16), 0);
    m.write_word(16, usize::MAX);
    assert_eq!(m.read_word(16), usize::MAX);
    assert_eq!(m.read_word(8), 0x0102_0304_0506_0708);
}

#[test]
fn word_write_keeps_neighbouring_words() {
    let mut m = ByteMemory { bytes: vec![0xAAu8; 32] };
    m.write_word(9, 7);
    assert_eq!(m.read_word(9), 7);
    assert_eq!(m.bytes[8], 0xAA);
    assert_eq!(m.bytes[17], 0xAA);
    assert_eq!(m.read_word(24), 0xAAAA_AAAA_AAAA_AAAA);
}

#[test]
fn header_packing() {
    assert_eq!(SimpleAllocator::pack_header(16, false), 16);
    assert_eq!(SimpleAllocator::pack_header(16, true), 17);
    assert_eq!(SimpleAllocator::pack_header(7, true), 9);
    assert_eq!(SimpleAllocator::unpack_header(9), (8, true));
    assert_eq!(SimpleAllocator::unpack_header(240), (240, false));
    assert_eq!(SimpleAllocator::next_block_addr(32, 208), 256);
}

#[test]
fn simple_allocator_new_uses_default_size() {
    let a = SimpleAllocator::new();
    assert_eq!(a.working_memory_size(), DEFAULT_WORKING_MEMORY_SIZE);
}

#[test]
fn install_memory_makes_one_free_block() {
    let a = ready_allocator(256);
    assert_eq!(a.block_list(), vec![block(0, 240, false)]);
    assert_eq!(a.memory_end(), 256);
}

#[test]
fn allocate_splits_the_first_fitting_block() {
    let mut a = ready_allocator(256);
    let p = a.allocate(10, 8).unwrap();
    assert_eq!(p, 8);
    assert_eq!(a.block_list(), vec![block(0, 16, true), block(32, 208, false)]);
}

#[test]
fn allocate_takes_a_block_whole_when_the_rest_would_be_too_small() {
    let mut a = ready_allocator(256);
    a.allocate(10, 8).unwrap();
    let p = a.allocate(200, 8).unwrap();
    assert_eq!(p, 40);
    assert_eq!(a.block_list(), vec![block(0, 16, true), block(32, 208, true)]);
    assert!(!a.can_allocate(1));
}

#[test]
fn deallocate_merges_with_free_neighbours() {
    let mut a = ready_allocator(256);
    let p1 = a.allocate(10, 8).unwrap();
    let p2 = a.allocate(16, 8).unwrap();
    let p3 = a.allocate(16, 8).unwrap();
    assert_eq!((p1, p2, p3), (8, 40, 72));
    a.deallocate(p2);
    assert_eq!(
        a.block_list(),
        vec![block(0, 16, true), block(32, 16, false), block(64, 16, true), block(96, 144, false)]
    );
    a.deallocate(p1);
    assert_eq!(a.block_list(), vec![block(0, 48, false), block(64, 16, true), block(96, 144, false)]);
    a.deallocate(p3);
    assert_eq!(a.block_list(), vec![block(0, 240, false)]);
}

#[test]
fn alloc_then_free_restores_the_blocks() {
    let mut a = ready_allocator(512);
    let first = a.allocate(24, 8).unwrap();
    let before = a.block_list();
    let p = a.allocate(40, 8).unwrap();
    a.deallocate(p);
    assert_eq!(a.block_list(), before);
    a.deallocate(first);
    assert_eq!(a.block_list(), vec![block(0, 496, false)]);
}

#[test]
fn can_allocate_rounds_up_to_words() {
    let a = ready_allocator(256);
    assert!(a.can_allocate(240));
    assert!(a.can_allocate(233));
    assert!(!a.can_allocate(241));
}

#[test]
fn freed_block_is_reused_first() {
    let mut a = ready_allocator(256);
    let p1 = a.allocate(16, 8).unwrap();
    a.allocate(16, 8).unwrap();
    a.deallocate(p1);
    assert_eq!(a.allocate(8, 8).unwrap(), 8);
}

#[test]
fn blocks_tile_the_memory_and_free_blocks_are_merged() {
    let mut a = ready_allocator(1024);
    let mut live = Vec::new();
    for size in [8usize, 24, 100, 16, 40, 8].iter() {
        live.push(a.allocate(*size, 8).unwrap());
    }
    a.deallocate(live[1]);
    a.deallocate(live[3]);
    a.deallocate(live[2]);
    let blocks = a.block_list();
    let mut expected_start = 0;
    for (i, b) in blocks.iter().enumerate() {
        assert_eq!(b.start, expected_start);
        expected_start = b.start + b.size + 16;
        if i + 1 < blocks.len() {
            assert!(b.filled || blocks[i + 1].filled);
        }
    }
    assert_eq!(expected_start, 1024);
}

#[test]
fn data_of_filled_blocks_survives_other_requests() {
    let mut a = ready_allocator(512);
    let p1 = a.allocate(16, 8).unwrap();
    let p2 = a.allocate(24, 8).unwrap();
    assert_eq!((p1, p2), (8, 40));
    a.write_word_at(p1, 11);
    a.write_word_at(p1 + 8, 12);
    a.write_word_at(p2, 13);
    a.write_word_at(p2 + 16, 14);
    let p3 = a.allocate(40, 8).unwrap();
    a.write_word_at(p3, 15);
    assert_eq!(a.read_word_at(p3), 15);
    a.deallocate(p3);
    assert_eq!(a.read_word_at(p1 + 8), 12);
    a.deallocate(p1);
    assert_eq!(a.allocate(8, 8).unwrap(), 8);
    assert_eq!(a.read_word_at(p2), 13);
    assert_eq!(a.read_word_at(p2 + 16), 14);
    assert_eq!(a.block_list()[1], block(32, 24, true));
}

#[test]
fn allocate_honours_alignments_that_divide_the_word() {
    let mut a = ready_allocator(256);
    assert_eq!(a.allocate(3, 1), Some(8));
    assert_eq!(a.allocate(8, 4), Some(32));
    assert_eq!(a.allocate(8, 2), Some(56));
    assert_eq!(a.block_list()[0], block(0, 8, true));
}

#[test]
fn allocate_refuses_alignments_above_the_word() {
    let mut a = ready_allocator(256);
    assert_eq!(a.allocate(8, 16), None);
    assert_eq!(a.allocate(8, 4096), None);
    assert_eq!(a.allocate(8, 3), None);
    assert_eq!(a.allocate(8, 0), None);
    assert_eq!(a.block_list(), vec![block(0, 240, false)]);
}

#[test]
fn allocate_answers_none_when_no_block_fits() {
    let mut a = ready_allocator(256);
    assert_eq!(a.allocate(241, 8), None);
    assert_eq!(a.allocate(usize::MAX, 8), None);
    assert_eq!(a.block_list(), vec![block(0, 240, false)]);
    assert_eq!(a.allocate(240, 8), Some(8));
    assert_eq!(a.allocate(1, 8), None);
    assert_eq!(a.block_list(), vec![block(0, 240, true)]);
}
