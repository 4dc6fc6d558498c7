use parser_core::scan::{
    compute_histogram, compute_prefix_from_hist, compute_prefix_sums, cpu_exclusive_scan,
};

#[test]
fn exclusive_scan_counts_up() {
    let input: Vec<u32> = (1u32..=10).collect();
    assert_eq!(
        cpu_exclusive_scan(&input),
        vec![0, 1, 3, 6, 10, 15, 21, 28, 36, 45]
    );
}

#[test]
fn exclusive_scan_all_ones_single_block() {
    let input = vec![1u32; 64];
    let expected: Vec<u32> = (0u32..64).collect();
    assert_eq!(cpu_exclusive_scan(&input), expected);
}

#[test]
fn exclusive_scan_empty() {
    assert_eq!(cpu_exclusive_scan(&[]), Vec::<u32>::new());
}

#[test]
fn exclusive_scan_of_zeros_is_zeros() {
    let input = vec![0u32; 1000];
    assert!(cpu_exclusive_scan(&input).iter().all(|&v| v == 0));
}

#[test]
fn exclusive_scan_sparse_end_sentinel() {
    let mut input = vec![0u32; 500];
    input[499] = 42;
    let out = cpu_exclusive_scan(&input);
    assert_eq!(out.len(), 500);
    assert!(out.iter().all(|&v| v == 0));
}

#[test]
fn exclusive_scan_wraps_like_negative_numbers() {
    let input = vec![1, 1, 4294967295, 1, 4294967295, 1, 1, 4294967295, 4294967295];
    assert_eq!(cpu_exclusive_scan(&input), vec![0, 1, 2, 1, 2, 1, 2, 3, 2]);
}

#[test]
fn exclusive_scan_prefix_of_input_gives_prefix_of_output() {
    let input: Vec<u32> = (0u32..200).map(|i| i % 7).collect();
    let whole = cpu_exclusive_scan(&input);
    let part = cpu_exclusive_scan(&input[..77]);
    assert_eq!(&whole[..77], &part[..]);
}

#[test]
fn prefix_from_hist_is_exclusive_scan() {
    let n_wg = 4usize;
    let mut input = vec![0u32; 256 * n_wg];
    for v in 1usize..=10 {
        input[n_wg * v] = 1;
    }
    let expected = cpu_exclusive_scan(&input);
    assert_eq!(compute_prefix_from_hist(input, n_wg), expected);
}

#[test]
fn prefix_from_hist_values() {
    let mut hist = vec![0u32; 256 * 2];
    hist[0] = 3;
    hist[1] = 5;
    hist[2] = 7;
    let out = compute_prefix_from_hist(hist, 2);
    assert_eq!(out.len(), 512);
    assert_eq!(&out[..4], &[0, 3, 8, 15]);
    assert_eq!(out[511], 15);
}

#[test]
fn histogram_each_digit_once() {
    let input: Vec<u32> = (0u32..64).collect();
    let hist = compute_histogram(&input, 1, 1, 0);
    for i in 0..64 {
        assert_eq!(hist[i], 1, "digit {i} should appear once");
    }
    for i in 64..256 {
        assert_eq!(hist[i], 0, "digit {i} should be absent");
    }
}

#[test]
fn histogram_second_byte() {
    let input = vec![0x0000_AB00u32; 64];
    let hist = compute_histogram(&input, 1, 1, 1);
    assert_eq!(hist[0xAB], 64);
    let total: u32 = hist.iter().sum();
    assert_eq!(total, 64);
}

#[test]
fn histogram_column_major_two_workgroups() {
    let input: Vec<u32> = std::iter::repeat(0u32)
        .take(64)
        .chain(std::iter::repeat(1u32).take(64))
        .collect();
    let hist = compute_histogram(&input, 2, 1, 0);
    assert_eq!(hist[0], 64, "wg0 digit0");
    assert_eq!(hist[1], 0, "wg1 digit0");
    assert_eq!(hist[2], 0, "wg0 digit1");
    assert_eq!(hist[3], 64, "wg1 digit1");
}

#[test]
fn histogram_elements_per_thread() {
    let input = vec![7u32; 128];
    let hist = compute_histogram(&input, 1, 2, 0);
    assert_eq!(hist[7], 128);
    let total: u32 = hist.iter().sum();
    assert_eq!(total, 128);
}

#[test]
fn histogram_small_input_lands_in_first_workgroup() {
    let keys: Vec<u32> = (1u32..=10).collect();
    let hist = compute_histogram(&keys, 4, 4, 0);
    let mut expected = vec![0u32; 256 * 4];
    for v in 1usize..=10 {
        expected[4 * v] = 1;
    }
    assert_eq!(hist, expected);
}

#[test]
fn histogram_total_is_covered_elements() {
    // 3 workgroups of 64 elements cover only the first 192 of 300 inputs.
    let input: Vec<u32> = (0u32..300).collect();
    let hist = compute_histogram(&input, 3, 1, 0);
    let total: u32 = hist.iter().sum();
    assert_eq!(total, 192);
}

#[test]
fn prefix_sums_of_reversed_keys() {
    let keys: Vec<u32> = vec![10, 9, 8, 7, 6, 5, 4, 3, 2, 1];
    let sums = compute_prefix_sums(&keys, 4, 16, 0);
    assert_eq!(sums.len(), 1024);
    // Digit d of workgroup 0 sits at index 4 * d; digits 1..=10 each once.
    for d in 1usize..=10 {
        assert_eq!(sums[4 * d], (d - 1) as u32);
    }
    assert_eq!(sums[4 * 11], 10);
    assert_eq!(sums[1023], 10);
}
