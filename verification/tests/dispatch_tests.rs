use parser_core::dispatch::{
    dispatch_fits, pipeline_sizes, radix_sort_sizes, scan_block_bytes, scan_dispatches, scan_levels,
    scan_levels_fit, split_dispatch_3d, ScanDispatch, ScanStage,
};

#[test]
fn split_small_count_uses_x_only() {
    assert_eq!(split_dispatch_3d(10, 65535), [10, 1, 1]);
}

#[test]
fn split_large_count_spills_into_y() {
    assert_eq!(split_dispatch_3d(100_000, 65535), [65535, 2, 1]);
}

#[test]
fn split_needs_all_three_dimensions() {
    assert_eq!(split_dispatch_3d(999, 10), [10, 10, 10]);
    assert_eq!(split_dispatch_3d(101, 10), [10, 10, 2]);
}

#[test]
fn split_covers_requested_workgroups() {
    for needed in [1u32, 7, 64, 65, 4096, 65535, 65536, 1_000_000] {
        let [x, y, z] = split_dispatch_3d(needed, 65535);
        assert!(x as u64 * y as u64 * z as u64 >= needed as u64);
        assert!(x <= 65535 && y <= 65535 && z <= 65535);
    }
}

#[test]
fn dispatch_fits_detects_overflowing_dimensions() {
    assert!(dispatch_fits(1000, 10));
    assert!(!dispatch_fits(1001, 10));
    assert!(!dispatch_fits(0, 10));
    assert!(!dispatch_fits(5, 0));
    assert!(!dispatch_fits(u32::MAX, u32::MAX));
}

#[test]
fn levels_single_tile() {
    assert_eq!(scan_levels(64), vec![64]);
    assert_eq!(scan_levels(10), vec![10]);
    assert_eq!(scan_levels(0), vec![0]);
}

#[test]
fn levels_two_blocks() {
    assert_eq!(scan_levels(128), vec![128, 2]);
    assert_eq!(scan_levels(65), vec![65, 2]);
}

#[test]
fn levels_two_and_three_deep() {
    assert_eq!(scan_levels(5000), vec![5000, 79, 2]);
    assert_eq!(scan_levels(300_000), vec![300_000, 4688, 74, 2]);
}

#[test]
fn dispatch_schedule_for_three_levels() {
    let levels = vec![5000u32, 79, 2];
    assert!(scan_levels_fit(&levels, 65535));
    let plan = scan_dispatches(&levels, 65535);
    assert_eq!(
        plan,
        vec![
            ScanDispatch { stage: ScanStage::BlockScanWriteSum(0), workgroups: [79, 1, 1] },
            ScanDispatch { stage: ScanStage::BlockScanWriteSum(1), workgroups: [2, 1, 1] },
            ScanDispatch { stage: ScanStage::BlockScanNoSum, workgroups: [1, 1, 1] },
            ScanDispatch { stage: ScanStage::AddCarry(0), workgroups: [2, 1, 1] },
            ScanDispatch { stage: ScanStage::AddCarry(1), workgroups: [79, 1, 1] },
        ]
    );
}

#[test]
fn dispatch_schedule_single_level() {
    let plan = scan_dispatches(&vec![10u32], 65535);
    assert_eq!(
        plan,
        vec![ScanDispatch { stage: ScanStage::BlockScanNoSum, workgroups: [1, 1, 1] }]
    );
}

#[test]
fn levels_fit_rejects_tiny_limits() {
    assert!(!scan_levels_fit(&vec![100_000u32], 2));
    assert!(scan_levels_fit(&vec![100_000u32], 65535));
}

#[test]
fn pipeline_sizes_for_small_input() {
    let s = pipeline_sizes(212);
    assert_eq!(s.word_count, 53);
    assert_eq!(s.output_word_count, 7);
    assert_eq!(s.output_size, 848);
    assert_eq!(s.output_size_bitmap, 28);
    assert_eq!(s.number_of_workgroups, 1);
    assert_eq!(s.radix_sort_elements_per_thread, 1);
    assert_eq!(s.number_of_radix_sort_workgroups, 4);
}

#[test]
fn pipeline_sizes_for_large_input() {
    let s = pipeline_sizes(1_000_000);
    assert_eq!(s.word_count, 250_000);
    assert_eq!(s.output_word_count, 31_250);
    assert_eq!(s.number_of_workgroups, 3907);
    assert_eq!(s.radix_sort_elements_per_thread, 31);
    assert_eq!(s.number_of_radix_sort_workgroups, 505);
}

#[test]
fn pipeline_sizes_for_empty_input() {
    let s = pipeline_sizes(0);
    assert_eq!(s.word_count, 0);
    assert_eq!(s.number_of_workgroups, 0);
    assert_eq!(s.radix_sort_elements_per_thread, 1);
    assert_eq!(s.number_of_radix_sort_workgroups, 1);
}

#[test]
fn radix_sizes() {
    let s = radix_sort_sizes(4);
    assert_eq!(s.histogram_len, 1024);
    assert_eq!(s.scratch_len, 4096);
    assert_eq!(s.workgroups, 4);
}

#[test]
fn block_buffer_bytes_per_level() {
    assert_eq!(scan_block_bytes(64), Vec::<u64>::new());
    assert_eq!(scan_block_bytes(128), vec![8]);
    assert_eq!(scan_block_bytes(5000), vec![316, 8]);
}
