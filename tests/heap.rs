use kernel_mm::allocator::{block_size, list_index, AllocError, KernelAllocator};
use kernel_mm::bitmap::MemoryRegion;
use kernel_mm::frame::BitMapFrameManager;

#[test]
fn list_index_picks_smallest_fitting_class() {
    assert_eq!(list_index(8, 8), Some(0));
    assert_eq!(list_index(1, 1), Some(0));
    assert_eq!(list_index(0, 1), Some(0));
    assert_eq!(list_index(9, 1), Some(1));
    assert_eq!(list_index(1, 16), Some(1));
    assert_eq!(list_index(100, 8), Some(4));
    assert_eq!(list_index(2048, 8), Some(8));
    assert_eq!(list_index(2049, 1), None);
    assert_eq!(list_index(8, 4096), None);
}

#[test]
fn block_sizes_double() {
    let sizes: Vec<usize> = (0..9).map(block_size).collect();
    assert_eq!(sizes, vec![8, 16, 32, 64, 128, 256, 512, 1024, 2048]);
}

#[test]
fn size_eight_class_takes_two_frames_for_513_blocks() {
    let mut frames = BitMapFrameManager::new();
    let mut heap = KernelAllocator::new();
    let mut ptrs = Vec::new();
    for _ in 0..513 {
        ptrs.push(heap.alloc_block(&mut frames, 8, 8).unwrap());
    }
    assert!(frames.get_bit(1));
    assert!(frames.get_bit(2));
    assert!(!frames.get_bit(3));
    assert_eq!(ptrs[0], 0x1000);
    assert_eq!(ptrs[1], 0x1008);
    assert_eq!(ptrs[511], 0x1000 + 511 * 8);
    assert_eq!(ptrs[512], 0x2000);
    let mut sorted = ptrs.clone();
    sorted.sort();
    sorted.dedup();
    assert_eq!(sorted.len(), 513);
}

#[test]
fn alloc_dealloc_alloc_returns_same_pointer() {
    let mut frames = BitMapFrameManager::new();
    let mut heap = KernelAllocator::new();
    let p = heap.alloc_block(&mut frames, 24, 8).unwrap();
    heap.dealloc(&mut frames, p, 24, 8);
    let q = heap.alloc_block(&mut frames, 24, 8).unwrap();
    assert_eq!(p, q);
}

#[test]
fn freed_block_is_next_out_of_nonempty_class() {
    let mut frames = BitMapFrameManager::new();
    let mut heap = KernelAllocator::new();
    let a = heap.alloc_block(&mut frames, 64, 64).unwrap();
    let b = heap.alloc_block(&mut frames, 64, 64).unwrap();
    assert_eq!(b, a + 64);
    heap.dealloc(&mut frames, a, 64, 64);
    assert_eq!(heap.alloc_block(&mut frames, 64, 64), Ok(a));
    assert_eq!(heap.alloc_block(&mut frames, 64, 64), Ok(a + 128));
}

#[test]
fn oversized_request_fails_without_change() {
    let mut frames = BitMapFrameManager::new();
    let mut heap = KernelAllocator::new();
    assert_eq!(heap.alloc_block(&mut frames, 4097, 8), Err(AllocError::Unsupported));
    assert_eq!(heap.alloc_block(&mut frames, 3000, 8), Err(AllocError::Unsupported));
    assert!(!frames.get_bit(1));
    // the free lists were left alone: the next small request carves frame 1
    assert_eq!(heap.alloc_block(&mut frames, 16, 16), Ok(0x1000));
}

#[test]
fn frame_sized_request_takes_whole_frame() {
    let mut frames = BitMapFrameManager::new();
    let mut heap = KernelAllocator::new();
    assert_eq!(heap.alloc_block(&mut frames, 4096, 8), Ok(0x1000));
    assert!(frames.get_bit(1));
    assert_eq!(heap.alloc_block(&mut frames, 4096, 4096), Ok(0x2000));
    heap.dealloc(&mut frames, 0x1000, 4096, 8);
    assert!(!frames.get_bit(1));
    assert!(frames.get_bit(2));
}

#[test]
fn exhausted_frames_give_out_of_memory() {
    let mut frames = BitMapFrameManager::new();
    frames.init(&[MemoryRegion { phys_start: 0, phys_end: 0x2000 }]);
    let mut heap = KernelAllocator::new();
    assert_eq!(heap.alloc_block(&mut frames, 2048, 8), Ok(0x1000));
    assert_eq!(heap.alloc_block(&mut frames, 2048, 8), Ok(0x1800));
    assert_eq!(heap.alloc_block(&mut frames, 2048, 8), Err(AllocError::OutOfMemory));
    assert_eq!(heap.alloc_block(&mut frames, 4096, 8), Err(AllocError::OutOfMemory));
}

#[test]
fn classes_keep_separate_lists() {
    let mut frames = BitMapFrameManager::new();
    let mut heap = KernelAllocator::new();
    let a = heap.alloc_block(&mut frames, 8, 8).unwrap();
    let b = heap.alloc_block(&mut frames, 32, 8).unwrap();
    assert_eq!(a, 0x1000);
    assert_eq!(b, 0x2000);
    heap.dealloc(&mut frames, a, 8, 8);
    assert_eq!(heap.alloc_block(&mut frames, 32, 8), Ok(0x2020));
    assert_eq!(heap.alloc_block(&mut frames, 8, 1), Ok(a));
}

#[test]
fn frame_sized_request_with_larger_alignment_is_unsupported() {
    let mut frames = BitMapFrameManager::new();
    let mut heap = KernelAllocator::new();
    assert_eq!(heap.alloc_block(&mut frames, 4096, 8192), Err(AllocError::Unsupported));
    assert!(!frames.get_bit(1));
    assert_eq!(heap.alloc_block(&mut frames, 4096, 4096), Ok(0x1000));
}
