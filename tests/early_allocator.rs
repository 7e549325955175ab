use bump_allocator::align::{align_down, align_up};
use bump_allocator::early::{AllocError, EarlyAllocator};

const PAGE: usize = 0x1000;

fn fresh(start: usize, size: usize) -> EarlyAllocator<PAGE> {
    let mut a = EarlyAllocator::<PAGE>::new();
    a.init(start, size);
    a
}

#[test]
fn init_sets_free_gap_to_whole_region() {
    let a = fresh(0x1000, 0x4000);
    assert_eq!(a.available_bytes(), 0x4000);
    assert_eq!(a.available_pages(), 4);
    assert_eq!(a.total_bytes(), 0x4000);
    assert_eq!(a.total_pages(), 4);
    assert_eq!(a.used_bytes(), 0);
    assert_eq!(a.used_pages(), 0);
}

#[test]
fn init_with_partial_page() {
    let a = fresh(0x10, 0x2800);
    assert_eq!(a.available_bytes(), 0x2800);
    assert_eq!(a.available_pages(), 2);
}

#[test]
fn new_allocator_is_empty() {
    let a = EarlyAllocator::<PAGE>::new();
    assert_eq!(a.total_bytes(), 0);
    assert_eq!(a.available_bytes(), 0);
    assert_eq!(a.page_size(), PAGE);
}

#[test]
fn mixed_scenario() {
    let mut a = fresh(0x1000, 0x4000);
    assert_eq!(a.alloc_bytes(64, 8), Ok(0x1000));
    assert_eq!(a.available_bytes(), 0x3FC0);
    assert_eq!(a.alloc_pages(1, 12), Ok(0x4000));
    assert_eq!(a.available_bytes(), 0x2FC0);
    assert_eq!(a.available_pages(), 2);
    assert_eq!(a.used_pages(), 1);
    assert_eq!(a.alloc_bytes(0x3000, 8), Err(AllocError::NoMemory));
    assert_eq!(a.available_bytes(), 0x2FC0);
    assert_eq!(a.alloc_bytes(0x2000, 8), Ok(0x1040));
    assert_eq!(a.available_bytes(), 0x0FC0);
}

#[test]
fn used_bytes_counts_padding_and_sizes() {
    let mut a = fresh(0x1000, 0x4000);
    assert_eq!(a.alloc_bytes(3, 1), Ok(0x1000));
    assert_eq!(a.used_bytes(), 3);
    // padding of 5 to reach 0x1008
    assert_eq!(a.alloc_bytes(10, 8), Ok(0x1008));
    assert_eq!(a.used_bytes(), 3 + 5 + 10);
    // padding of 0x1000 - 0x12 = 0xFEE to reach 0x2000
    assert_eq!(a.alloc_bytes(1, 0x1000), Ok(0x2000));
    assert_eq!(a.used_bytes(), 0x1001);
    assert_eq!(a.available_bytes() + a.used_bytes(), a.total_bytes());
}

#[test]
fn zero_size_allocation_still_counts() {
    let mut a = fresh(0x1001, 0x100);
    assert_eq!(a.alloc_bytes(0, 16), Ok(0x1010));
    assert_eq!(a.used_bytes(), 0xF);
    a.dealloc(0x1010, 0, 16);
    assert_eq!(a.used_bytes(), 0);
    assert_eq!(a.available_bytes(), 0x100);
}

#[test]
fn exact_fit_succeeds_and_one_more_byte_fails() {
    let mut a = fresh(0, 0x100);
    assert_eq!(a.alloc_bytes(0x101, 1), Err(AllocError::NoMemory));
    assert_eq!(a.alloc_bytes(0x100, 1), Ok(0));
    assert_eq!(a.available_bytes(), 0);
    assert_eq!(a.alloc_bytes(0, 1), Ok(0x100));
    assert_eq!(a.alloc_bytes(1, 1), Err(AllocError::NoMemory));
}

#[test]
fn alignment_past_address_space_fails() {
    let mut a = fresh(usize::MAX - 0x10, 0x10);
    assert_eq!(a.alloc_bytes(1, 0x100), Err(AllocError::NoMemory));
    assert_eq!(a.alloc_bytes(1, 1), Ok(usize::MAX - 0x10));
}

#[test]
fn freeing_two_allocations_resets_only_at_last() {
    let mut a = fresh(0x1000, 0x4000);
    let before = a.available_bytes();
    let p = a.alloc_bytes(0x100, 8).unwrap();
    let q = a.alloc_bytes(0x200, 8).unwrap();
    assert_eq!(a.available_bytes(), before - 0x300);
    a.dealloc(p, 0x100, 8);
    assert_eq!(a.available_bytes(), before - 0x300);
    assert_eq!(a.used_bytes(), 0x300);
    a.dealloc(q, 0x200, 8);
    assert_eq!(a.available_bytes(), before);
    assert_eq!(a.used_bytes(), 0);
    assert_eq!(a.alloc_bytes(8, 8), Ok(0x1000));
}

#[test]
fn free_keeps_page_arena() {
    let mut a = fresh(0x1000, 0x4000);
    let p = a.alloc_bytes(0x10, 8).unwrap();
    assert_eq!(a.alloc_pages(2, 12), Ok(0x3000));
    a.dealloc(p, 0x10, 8);
    assert_eq!(a.available_bytes(), 0x2000);
    assert_eq!(a.used_bytes(), 0x2000);
}

#[test]
fn page_alignment_rounds_start_down() {
    let mut a = fresh(0x1000, 0x4000);
    // 0x5000 - 0x1000 = 0x4000 rounds down to 0x4000 at 16 KiB alignment
    assert_eq!(a.alloc_pages(1, 14), Ok(0x4000));
    // 0x4000 - 0x1000 = 0x3000 rounds down to 0 at 16 KiB alignment: below start
    assert_eq!(a.alloc_pages(1, 14), Err(AllocError::NoMemory));
    assert_eq!(a.available_bytes(), 0x3000);
    // at 8 KiB alignment 0x3000 rounds down to 0x2000, taking two pages
    assert_eq!(a.alloc_pages(1, 13), Ok(0x2000));
    assert_eq!(a.used_pages(), 3);
}

#[test]
fn page_request_rejected_by_alignment_though_size_fits() {
    let mut a = fresh(0x1800, 0x3800);
    // end is 0x5000; 0x5000 - 0x1000 = 0x4000 fits, but 64 KiB alignment rounds to 0
    assert_eq!(a.alloc_pages(1, 16), Err(AllocError::NoMemory));
    assert_eq!(a.alloc_pages(1, 0), Ok(0x4000));
}

#[test]
fn too_many_pages_fail() {
    let mut a = fresh(0x1000, 0x4000);
    assert_eq!(a.alloc_pages(5, 0), Err(AllocError::NoMemory));
    assert_eq!(a.alloc_pages(usize::MAX, 0), Err(AllocError::NoMemory));
    assert_eq!(a.alloc_pages(4, 0), Ok(0x1000));
    assert_eq!(a.available_bytes(), 0);
    assert_eq!(a.alloc_bytes(1, 1), Err(AllocError::NoMemory));
}

#[test]
fn pages_may_not_cross_byte_cursor() {
    let mut a = fresh(0x1000, 0x4000);
    assert_eq!(a.alloc_bytes(0x1001, 1), Ok(0x1000));
    assert_eq!(a.alloc_pages(3, 0), Err(AllocError::NoMemory));
    assert_eq!(a.alloc_pages(2, 12), Ok(0x3000));
}

#[test]
fn allocations_do_not_overlap() {
    let mut a = fresh(0x1000, 0x4000);
    let mut spans: Vec<(usize, usize)> = Vec::new();
    let b1 = a.alloc_bytes(0x30, 16).unwrap();
    spans.push((b1, 0x30));
    let p1 = a.alloc_pages(1, 12).unwrap();
    spans.push((p1, PAGE));
    let b2 = a.alloc_bytes(0x7, 4).unwrap();
    spans.push((b2, 0x7));
    let p2 = a.alloc_pages(1, 13).unwrap();
    spans.push((p2, PAGE));
    for (i, &(x, xl)) in spans.iter().enumerate() {
        assert!(x >= 0x1000 && x + xl <= 0x5000);
        for &(y, yl) in spans.iter().skip(i + 1) {
            assert!(x + xl <= y || y + yl <= x);
        }
    }
}

#[test]
fn unsupported_operations_fail() {
    let mut a = fresh(0x1000, 0x4000);
    assert_eq!(a.add_memory(0x10000, 0x1000), Err(AllocError::Unsupported));
    assert_eq!(a.dealloc_pages(0x4000, 1), Err(AllocError::Unsupported));
    assert_eq!(a.total_bytes(), 0x4000);
    assert_eq!(a.available_bytes(), 0x4000);
}

#[test]
fn reinit_forgets_allocations() {
    let mut a = fresh(0x1000, 0x4000);
    a.alloc_bytes(0x100, 8).unwrap();
    a.alloc_pages(1, 0).unwrap();
    a.init(0x8000, 0x2000);
    assert_eq!(a.used_bytes(), 0);
    assert_eq!(a.available_bytes(), 0x2000);
    assert_eq!(a.alloc_bytes(1, 1), Ok(0x8000));
}

#[test]
fn align_helpers() {
    assert_eq!(align_up(0x1001, 0x1000), 0x2000);
    assert_eq!(align_up(0x1000, 0x1000), 0x1000);
    assert_eq!(align_up(5, 1), 5);
    assert_eq!(align_up(0, 8), 0);
    assert_eq!(align_down(0x1fff, 0x1000), 0x1000);
    assert_eq!(align_down(0x2000, 0x1000), 0x2000);
    assert_eq!(align_down(7, 8), 0);
}
