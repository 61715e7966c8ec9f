use sched_alloc::memory::ByteMemory;
use sched_alloc::slab_allocator::{
    align, block_ptr, log2_ceil, page_by_ptr, page_start, pages_ceil, power_of_two, word_size, PageType,
    SlabAllocator, PAGE_SIZE, SIZE_CLASSES, TOTAL_PAGES,
};

fn ready_slab(pages: usize) -> SlabAllocator {
    let mut a = SlabAllocator::with_total_pages(pages);
    a.install_memory(
        ByteMemory { bytes: vec![0u8; pages * PAGE_SIZE] },
        vec![7; pages],
        vec![7; pages],
        vec![7; pages],
        vec![7; SIZE_CLASSES],
        vec![7; pages],
    );
    a
}

#[test]
fn word_size_is_eight() {
    assert_eq!(word_size(), 8);
}

#[test]
fn pages_ceil_rounds_up() {
    assert_eq!(pages_ceil(0), 0);
    assert_eq!(pages_ceil(1), 1);
    assert_eq!(pages_ceil(PAGE_SIZE), 1);
    assert_eq!(pages_ceil(PAGE_SIZE + 1), 2);
    assert_eq!(pages_ceil(3 * PAGE_SIZE), 3);
}

#[test]
fn align_rounds_up_to_words() {
    assert_eq!(align(0), 0);
    assert_eq!(align(1), 8);
    assert_eq!(align(8), 8);
    assert_eq!(align(9), 16);
    assert_eq!(align(20000), 20000);
}

#[test]
fn log2_ceil_values() {
    assert_eq!(log2_ceil(1), 0);
    assert_eq!(log2_ceil(2), 1);
    assert_eq!(log2_ceil(3), 2);
    assert_eq!(log2_ceil(8), 3);
    assert_eq!(log2_ceil(9), 4);
    assert_eq!(log2_ceil(PAGE_SIZE), 14);
}

#[test]
fn power_of_two_values() {
    assert_eq!(power_of_two(0), 1);
    assert_eq!(power_of_two(4), 16);
    assert_eq!(power_of_two(13), 8192);
}

#[test]
fn page_arithmetic() {
    assert_eq!(page_start(3), 3 * PAGE_SIZE);
    assert_eq!(page_by_ptr(3 * PAGE_SIZE + 17), 3);
    assert_eq!(block_ptr(2, 3, 16), 2 * PAGE_SIZE + 48);
}

#[test]
fn slab_new_has_all_pages() {
    let a = SlabAllocator::new();
    assert_eq!(a.total_page_count(), TOTAL_PAGES);
}

#[test]
fn install_memory_frees_every_page() {
    let a = ready_slab(4);
    for p in 0..4 {
        assert_eq!(a.get_page_type(p), PageType::Free);
        assert_eq!(a.get_total_blocks_allocated(p), 0);
    }
    for c in 0..SIZE_CLASSES {
        assert_eq!(a.get_first_block_page_index(c), 0);
    }
}

#[test]
fn small_requests_are_cut_from_block_pages() {
    let mut a = ready_slab(8);
    // the first page taken for blocks is page 0, which is then not
    // remembered as the first page of its size class
    assert_eq!(a.allocate(10), Some(0));
    assert_eq!(a.get_page_type(0), PageType::Blocks);
    assert_eq!(a.get_first_block_page_index(4), 0);
    assert_eq!(a.allocate(10), Some(PAGE_SIZE));
    assert_eq!(a.get_first_block_page_index(4), 1);
    assert_eq!(a.allocate(16), Some(PAGE_SIZE + 16));
    assert_eq!(a.get_total_blocks_allocated(1), 2);
    assert_eq!(a.get_free_block_offset(1), 32);
    assert_eq!(a.block_size_by_page(1), 16);
}

#[test]
fn tiny_requests_take_a_word() {
    let mut a = ready_slab(4);
    assert_eq!(a.allocate(10), Some(0));
    assert_eq!(a.allocate(1), Some(PAGE_SIZE));
    assert_eq!(a.allocate(3), Some(PAGE_SIZE + 8));
    assert_eq!(a.get_first_block_page_index(3), 1);
    assert_eq!(a.block_size_by_page(1), 8);
}

#[test]
fn block_classes_have_their_own_pages() {
    let mut a = ready_slab(8);
    assert_eq!(a.allocate(4000), Some(0));
    assert_eq!(a.allocate(100), Some(PAGE_SIZE));
    assert_eq!(a.allocate(4000), Some(2 * PAGE_SIZE));
    assert_eq!(a.allocate(4000), Some(2 * PAGE_SIZE + 4096));
    assert_eq!(a.block_size_by_page(2), 4096);
    assert_eq!(a.block_size_by_page(1), 128);
}

#[test]
fn full_page_gets_a_next_page_in_its_chain() {
    let mut a = ready_slab(8);
    assert_eq!(a.allocate(8192), Some(0));
    assert_eq!(a.allocate(8192), Some(PAGE_SIZE));
    assert_eq!(a.allocate(8192), Some(PAGE_SIZE + 8192));
    assert_eq!(a.get_free_block_offset(1), usize::MAX);
    assert_eq!(a.allocate(8192), Some(2 * PAGE_SIZE));
    assert_eq!(a.get_next_page(1), 2);
    assert_eq!(a.get_next_page(2), 0);
}

#[test]
fn freed_block_is_handed_out_next() {
    let mut a = ready_slab(8);
    a.allocate(10);
    a.allocate(10);
    let b = a.allocate(10).unwrap();
    let c = a.allocate(10).unwrap();
    assert_eq!((b, c), (PAGE_SIZE + 16, PAGE_SIZE + 32));
    a.deallocate(b);
    assert_eq!(a.get_free_block_offset(1), 16);
    assert_eq!(a.get_total_blocks_allocated(1), 2);
    assert_eq!(a.allocate(12), Some(b));
}

#[test]
fn page_whose_blocks_are_all_free_is_given_back() {
    let mut a = ready_slab(8);
    a.allocate(10);
    let b = a.allocate(10).unwrap();
    assert_eq!(a.get_page_type(1), PageType::Blocks);
    a.deallocate(b);
    assert_eq!(a.get_page_type(1), PageType::Free);
    assert_eq!(a.get_first_block_page_index(4), 0);
    assert_eq!(a.get_total_blocks_allocated(1), 0);
    // the page is laid out afresh for the next request
    assert_eq!(a.allocate(64), Some(PAGE_SIZE));
    assert_eq!(a.block_size_by_page(1), 64);
}

#[test]
fn page_in_the_middle_of_a_chain_is_unlinked() {
    let mut a = ready_slab(8);
    a.allocate(8192);
    let p1 = a.allocate(8192).unwrap();
    let p1b = a.allocate(8192).unwrap();
    let p2 = a.allocate(8192).unwrap();
    let p2b = a.allocate(8192).unwrap();
    let p3 = a.allocate(8192).unwrap();
    assert_eq!((p1, p2, p3), (PAGE_SIZE, 2 * PAGE_SIZE, 3 * PAGE_SIZE));
    assert_eq!(a.get_next_page(2), 3);
    a.deallocate(p2);
    a.deallocate(p2b);
    assert_eq!(a.get_page_type(2), PageType::Free);
    assert_eq!(a.get_next_page(1), 3);
    a.deallocate(p1);
    a.deallocate(p1b);
    assert_eq!(a.get_first_block_page_index(13), 3);
}

#[test]
fn large_requests_take_whole_pages() {
    let mut a = ready_slab(8);
    assert_eq!(a.allocate(20000), Some(0));
    assert_eq!(a.get_page_type(0), PageType::Multipage);
    assert_eq!(a.get_page_type(1), PageType::Multipage);
    assert_eq!(a.get_page_type(2), PageType::Free);
    assert_eq!(a.get_next_page(0), 1);
    assert_eq!(a.get_next_page(1), usize::MAX);
    assert_eq!(a.allocate(10), Some(2 * PAGE_SIZE));
    assert_eq!(a.allocate(PAGE_SIZE), Some(3 * PAGE_SIZE));
}

#[test]
fn run_needs_one_more_free_page_unless_it_ends_the_memory() {
    let mut a = ready_slab(4);
    // pages 0 to 3 are free: two pages come from the start, where three
    // free pages follow one another
    assert_eq!(a.allocate(2 * PAGE_SIZE), Some(0));
    // only pages 2 and 3 are free now: they end the memory
    assert_eq!(a.allocate(2 * PAGE_SIZE), Some(2 * PAGE_SIZE));
    assert_eq!(a.allocate(PAGE_SIZE), None);
    assert_eq!(a.allocate(10), None);
}

#[test]
fn run_is_given_back_whole() {
    let mut a = ready_slab(4);
    let r = a.allocate(3 * PAGE_SIZE).unwrap();
    assert_eq!(r, 0);
    a.deallocate(r);
    for p in 0..4 {
        assert_eq!(a.get_page_type(p), PageType::Free);
    }
    assert_eq!(a.allocate(4 * PAGE_SIZE), Some(0));
}

#[test]
fn too_large_request_is_refused() {
    let mut a = ready_slab(4);
    assert_eq!(a.allocate(5 * PAGE_SIZE), None);
    assert_eq!(a.get_page_type(0), PageType::Free);
}

#[test]
fn live_allocations_do_not_overlap() {
    let mut a = ready_slab(8);
    let sizes = [10usize, 20000, 100, 10, 4000, 8192, 16, 9];
    let mut got: Vec<(usize, usize)> = Vec::new();
    for s in sizes.iter() {
        let addr = a.allocate(*s).unwrap();
        got.push((addr, *s));
    }
    for i in 0..got.len() {
        for j in 0..got.len() {
            if i != j {
                let (a1, s1) = got[i];
                let (a2, s2) = got[j];
                assert!(a1 + s1 <= a2 || a2 + s2 <= a1);
            }
        }
        assert!(got[i].0 + got[i].1 <= 8 * PAGE_SIZE);
    }
}

#[test]
fn alloc_then_dealloc_restores_what_is_handed_out() {
    let mut a = ready_slab(8);
    let x = a.allocate(10).unwrap();
    let y = a.allocate(10).unwrap();
    let offset_before = a.get_free_block_offset(1);
    let z = a.allocate(10).unwrap();
    a.deallocate(z);
    assert_eq!(a.get_free_block_offset(1), offset_before);
    assert_eq!(a.get_total_blocks_allocated(1), 1);
    let r = a.allocate(3 * PAGE_SIZE).unwrap();
    a.deallocate(r);
    for p in 2..8 {
        assert_eq!(a.get_page_type(p), PageType::Free);
    }
    assert_eq!((x, y), (0, PAGE_SIZE));
}

#[test]
fn contents_of_allocations_survive_other_requests() {
    let mut a = ready_slab(8);
    let x = a.allocate(16).unwrap();
    let r = a.allocate(20000).unwrap();
    assert_eq!((x, r), (0, PAGE_SIZE));
    a.write_word_at(x, 0xDEAD_BEEF);
    a.write_word_at(x + 8, 42);
    a.write_word_at(r + 16000, 7);
    let y = a.allocate(16).unwrap();
    let z = a.allocate(100).unwrap();
    assert_eq!((y, z), (3 * PAGE_SIZE, 4 * PAGE_SIZE));
    a.write_word_at(y, 1);
    assert_eq!(a.read_word_at(y), 1);
    a.deallocate(z);
    a.deallocate(y);
    assert_eq!(a.allocate(16), Some(3 * PAGE_SIZE));
    assert_eq!(a.read_word_at(x), 0xDEAD_BEEF);
    assert_eq!(a.read_word_at(x + 8), 42);
    assert_eq!(a.read_word_at(r + 16000), 7);
}

#[test]
fn a_freed_block_holds_the_link_to_the_next_free_block() {
    let mut a = ready_slab(4);
    a.allocate(16);
    let b1 = a.allocate(16).unwrap();
    let b2 = a.allocate(16).unwrap();
    a.write_word_at(b2, 99);
    a.deallocate(b2);
    // b2 is free again and links to the block after it, which is free
    let again = a.allocate(16).unwrap();
    assert_eq!(again, b2);
    assert_eq!(a.read_word_at(again), b2 - PAGE_SIZE + 16);
    assert_eq!(b1, PAGE_SIZE);
}

#[test]
fn allocate_aligned_honours_alignments_that_divide_the_word() {
    let mut a = ready_slab(4);
    assert_eq!(a.allocate_aligned(10, 8), Some(0));
    assert_eq!(a.allocate_aligned(3, 4), Some(PAGE_SIZE));
    assert_eq!(a.allocate_aligned(3, 1), Some(PAGE_SIZE + 8));
}

#[test]
fn allocate_aligned_refuses_alignments_above_the_word() {
    let mut a = ready_slab(4);
    assert_eq!(a.allocate_aligned(10, 16), None);
    assert_eq!(a.allocate_aligned(10, 3), None);
    assert_eq!(a.allocate_aligned(10, 0), None);
    assert_eq!(a.get_page_type(0), PageType::Free);
    assert_eq!(a.allocate_aligned(10, 8), Some(0));
}
