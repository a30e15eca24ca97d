use kernel_mm::bitmap::{FrameBitmap, MemoryRegion, FRAME_COUNTS};
use kernel_mm::frame::BitMapFrameManager;
use kernel_mm::mm::BitMapMemoryManager;

fn region(phys_start: u64, phys_end: u64) -> MemoryRegion {
    MemoryRegion { phys_start, phys_end }
}

#[test]
fn init_marks_gap_between_regions() {
    let mut m = BitMapFrameManager::new();
    m.init(&[region(0x0, 0x1000), region(0x2000, 0x3000)]);
    assert!(m.get_bit(1));
    assert!(!m.get_bit(2));
    assert!(!m.get_bit(0));
    // frame 0 is never handed out and the bound is frame 3
    assert_eq!(m.allocate(1), Some(2));
    assert_eq!(m.allocate(1), None);
}

#[test]
fn init_reserves_everything_before_first_region() {
    let mut m = BitMapMemoryManager::new();
    m.init(&[region(0x3000, 0x8000)]);
    assert!(m.get_bit(0));
    assert!(m.get_bit(1));
    assert!(m.get_bit(2));
    assert!(!m.get_bit(3));
    assert_eq!(m.allocate(2), Some(3));
}

#[test]
fn init_reserves_partially_covered_frames() {
    let mut m = BitMapMemoryManager::new();
    m.init(&[region(0x0, 0x1800), region(0x2800, 0x5000)]);
    // the gap 0x1800..0x2800 touches frames 1 and 2
    assert!(!m.get_bit(0));
    assert!(m.get_bit(1));
    assert!(m.get_bit(2));
    assert!(!m.get_bit(3));
    assert_eq!(m.allocate(2), Some(3));
    assert_eq!(m.allocate(1), Some(0));
    assert_eq!(m.allocate(1), None);
}

#[test]
fn init_with_no_regions_leaves_nothing_to_allocate() {
    let mut m = BitMapFrameManager::new();
    m.init(&[]);
    assert_eq!(m.allocate(1), None);
    assert_eq!(m.allocate(0), None);
}

#[test]
fn frame_manager_starts_at_frame_one() {
    let mut m = BitMapFrameManager::new();
    assert_eq!(m.allocate(1), Some(1));
    assert_eq!(m.allocate(3), Some(2));
    assert!(m.get_bit(4));
    assert!(!m.get_bit(5));
}

#[test]
fn memory_manager_starts_at_frame_zero() {
    let mut m = BitMapMemoryManager::new();
    assert_eq!(m.allocate(1), Some(0));
    assert_eq!(m.allocate(1), Some(1));
}

#[test]
fn allocate_skips_past_held_frame() {
    let mut m = BitMapMemoryManager::new();
    m.mark_allocated(2, 1);
    m.mark_allocated(5, 1);
    // runs of 3: [0,2) too short, [3,5) too short, first fit at 6
    assert_eq!(m.allocate(3), Some(6));
    assert_eq!(m.allocate(2), Some(0));
    assert_eq!(m.allocate(2), Some(3));
    assert_eq!(m.allocate(1), Some(9));
}

#[test]
fn allocate_never_overlaps_held_frames() {
    let mut m = BitMapFrameManager::new();
    m.mark_allocated(1, 4);
    m.mark_allocated(7, 2);
    let s = m.allocate(3).unwrap();
    for i in s..s + 3 {
        assert!(!(1..5).contains(&i));
        assert!(!(7..9).contains(&i));
    }
    assert_eq!(s, 9);
}

#[test]
fn allocate_zero_frames_returns_begin() {
    let mut m = BitMapFrameManager::new();
    assert_eq!(m.allocate(0), Some(1));
    assert!(!m.get_bit(1));
}

#[test]
fn free_then_allocate_reuses_frames() {
    let mut m = BitMapFrameManager::new();
    assert_eq!(m.allocate(4), Some(1));
    m.free(2, 2);
    assert!(m.get_bit(1));
    assert!(!m.get_bit(2));
    assert!(!m.get_bit(3));
    assert!(m.get_bit(4));
    assert_eq!(m.allocate(2), Some(2));
}

#[test]
fn bitmap_tracks_held_frames_through_a_sequence() {
    let mut m = BitMapMemoryManager::new();
    let a = m.allocate(3).unwrap();
    let b = m.allocate(2).unwrap();
    let c = m.allocate(1).unwrap();
    m.free(b, 2);
    let d = m.allocate(1).unwrap();
    m.free(a, 3);
    let mut held = vec![false; 10];
    for i in c..c + 1 {
        held[i] = true;
    }
    for i in d..d + 1 {
        held[i] = true;
    }
    for (i, h) in held.iter().enumerate() {
        assert_eq!(m.get_bit(i), *h, "frame {}", i);
    }
}

#[test]
fn allocate_fails_when_run_does_not_fit_before_end() {
    let mut m = BitMapMemoryManager::new();
    m.init(&[region(0x0, 0x4000)]);
    assert_eq!(m.allocate(5), None);
    assert_eq!(m.allocate(4), Some(0));
    assert_eq!(m.allocate(1), None);
}

#[test]
fn init_clamps_end_to_bitmap_size() {
    let mut m = BitMapMemoryManager::new();
    m.init(&[region(0x0, u64::MAX)]);
    assert!(!m.get_bit(FRAME_COUNTS - 1));
    m.mark_allocated(0, FRAME_COUNTS - 1);
    assert_eq!(m.allocate(1), Some(FRAME_COUNTS - 1));
    assert_eq!(m.allocate(1), None);
}

#[test]
fn bitmap_set_range_and_get_bit() {
    let mut b = FrameBitmap::new();
    b.set_range(60, 10, true);
    assert!(!b.get_bit(59));
    assert!(b.get_bit(60));
    assert!(b.get_bit(63));
    assert!(b.get_bit(64));
    assert!(b.get_bit(69));
    assert!(!b.get_bit(70));
    b.set_bit(64, false);
    assert!(!b.get_bit(64));
    assert!(b.get_bit(65));
}
