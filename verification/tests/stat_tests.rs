use freqprobe::stat::CpuStat;

#[test]
fn new_window_is_empty() {
    let st = CpuStat::new(3, 4);
    assert_eq!(st.id(), 3);
    assert_eq!(st.window_size(), 4);
    assert_eq!(st.sum(), 0);
    assert_eq!(st.sample_count(), 0);
}

#[test]
fn sum_and_count_track_samples() {
    let mut st = CpuStat::new(0, 10);
    st.add_sample(1);
    st.add_sample(2);
    st.add_sample(3);
    assert_eq!(st.sum(), 6);
    assert_eq!(st.sample_count(), 3);
}

#[test]
fn capacity_two_window_keeps_last_two() {
    // feeding [a, b, c] into a capacity-2 window leaves [b, c]
    let (a, b, c) = (10u64, 20u64, 30u64);
    let mut st = CpuStat::new(0, 2);
    st.add_sample(a);
    st.add_sample(b);
    st.add_sample(c);
    assert_eq!(st.sample_count(), 2);
    assert_eq!(st.sum(), (b + c) as u128);
}

#[test]
fn sum_is_sum_of_last_min_n_c_samples() {
    let mut st = CpuStat::new(0, 3);
    for v in [5u64, 7, 11, 13, 17] {
        st.add_sample(v);
    }
    // last min(5, 3) = 3 samples: 11 + 13 + 17
    assert_eq!(st.sample_count(), 3);
    assert_eq!(st.sum(), 41);

    let mut small = CpuStat::new(0, 8);
    small.add_sample(5);
    small.add_sample(7);
    // fewer samples than capacity: all are retained
    assert_eq!(small.sample_count(), 2);
    assert_eq!(small.sum(), 12);
}

#[test]
fn mean_of_k_samples_is_arithmetic_mean() {
    let mut st = CpuStat::new(0, 10);
    st.add_sample(1_000_000);
    st.add_sample(2_000_000);
    st.add_sample(4_000_000);
    let mean = st.sum() as f64 / st.sample_count() as f64;
    assert_eq!(mean, (1_000_000.0 + 2_000_000.0 + 4_000_000.0) / 3.0);
    let mhz = mean / 1_000_000.0;
    assert!((mhz - 7.0 / 3.0).abs() < 1e-12);
}

#[test]
fn empty_window_has_no_mean() {
    // the mean is undefined until a sample exists: asking for its
    // ingredients is rejected, not computed
    let st = CpuStat::new(0, 5);
    assert_eq!(st.sample_count(), 0);
    assert!(st.mean_parts().is_none());

    let mut st = CpuStat::new(0, 5);
    st.add_sample(8);
    st.add_sample(4);
    assert_eq!(st.mean_parts(), Some((12, 2)));
    let (sum, count) = st.mean_parts().unwrap();
    assert_eq!(sum as f64 / count as f64, 6.0);
}

#[test]
fn sum_does_not_overflow_on_large_samples() {
    let mut st = CpuStat::new(0, 3);
    st.add_sample(u64::MAX);
    st.add_sample(u64::MAX);
    st.add_sample(u64::MAX);
    st.add_sample(u64::MAX);
    assert_eq!(st.sample_count(), 3);
    assert_eq!(st.sum(), 3 * (u64::MAX as u128));
}
