use std::collections::{BTreeMap, HashSet};

use freqprobe::probe::stats_with_window;
use freqprobe::runner::{
    Interface, Output, Runner, DEFAULT_MONITOR_FREQUENCY, DEFAULT_SAMPLE_FREQUENCY,
    DEFAULT_WINDOW_SIZE, KILO,
};

fn set(ids: &[usize]) -> HashSet<usize> {
    ids.iter().copied().collect()
}

fn samples(pairs: &[(usize, u64)]) -> BTreeMap<usize, u64> {
    pairs.iter().copied().collect()
}

#[test]
fn runner_keeps_its_configuration() {
    let r = Runner::new(
        Interface::Procfs,
        set(&[0, 1]),
        25,
        Output::Log { duration_ms: 100 },
    );
    assert!(matches!(r.interface(), Interface::Procfs));
    assert_eq!(*r.cpuset(), set(&[0, 1]));
    assert_eq!(r.sample_interval_ms(), 25);
    assert!(matches!(r.output(), Output::Log { duration_ms: 100 }));
}

#[test]
fn defaults_match_the_documented_values() {
    assert!(matches!(Interface::default(), Interface::Sysfs));
    match Output::default() {
        Output::Monitor { update_freq, window_size } => {
            assert_eq!(update_freq, Some(DEFAULT_MONITOR_FREQUENCY));
            assert_eq!(window_size, Some(DEFAULT_WINDOW_SIZE));
        },
        _ => panic!("default output should be the monitor"),
    }
    assert_eq!(DEFAULT_SAMPLE_FREQUENCY, 1);
    assert_eq!(KILO, 1000);
}

#[test]
fn display_fires_only_after_the_deadline() {
    assert!(!Runner::display_due(5, 5));
    assert!(!Runner::display_due(4, 5));
    assert!(Runner::display_due(6, 5));
}

#[test]
fn deadlines_reschedule_from_now() {
    assert_eq!(Runner::next_deadline(10, 5), 15);
    assert_eq!(Runner::next_deadline(u64::MAX, 1), u64::MAX);
    assert_eq!(Runner::log_end_ms(7, 0), 7);
    assert_eq!(Runner::log_end_ms(7, 3), 10);
}

#[test]
fn zero_duration_log_takes_no_tick() {
    let end = Runner::log_end_ms(42, 0);
    assert!(!Runner::log_should_continue(42, end));
    assert!(Runner::log_should_continue(42, Runner::log_end_ms(42, 1)));
}

#[test]
fn feed_samples_updates_matching_windows() {
    let mut stats = stats_with_window(&set(&[0, 1]), 4);
    Runner::feed_samples(&mut stats, &samples(&[(0, 100), (1, 50), (9, 7)]));
    assert_eq!(stats.get(&0).unwrap().sum(), 100);
    assert_eq!(stats.get(&1).unwrap().sum(), 50);
    assert_eq!(stats.len(), 2);

    Runner::feed_samples(&mut stats, &samples(&[(1, 25)]));
    assert_eq!(stats.get(&0).unwrap().sum(), 100);
    assert_eq!(stats.get(&0).unwrap().sample_count(), 1);
    assert_eq!(stats.get(&1).unwrap().sum(), 75);
    assert_eq!(stats.get(&1).unwrap().sample_count(), 2);
}

#[test]
fn two_core_scenario_reaches_expected_means() {
    // two tracked cores, capacity 3, core0 fed [100, 200, 300, 400]
    // and core1 fed [50, 50, 50]
    let mut stats = stats_with_window(&set(&[0, 1]), 3);
    Runner::feed_samples(&mut stats, &samples(&[(0, 100), (1, 50)]));
    Runner::feed_samples(&mut stats, &samples(&[(0, 200), (1, 50)]));
    Runner::feed_samples(&mut stats, &samples(&[(0, 300), (1, 50)]));
    Runner::feed_samples(&mut stats, &samples(&[(0, 400)]));

    let core0 = stats.get(&0).unwrap();
    let mean0 = core0.sum() as f64 / core0.sample_count() as f64;
    assert_eq!(mean0, 300.0);

    let core1 = stats.get(&1).unwrap();
    let mean1 = core1.sum() as f64 / core1.sample_count() as f64;
    assert_eq!(mean1, 50.0);
}

#[test]
fn log_header_is_ascending() {
    let header = Runner::get_log_header(&set(&[2, 0, 1]));
    assert_eq!(header, vec!["cpu0", "cpu1", "cpu2"]);
    assert_eq!(Runner::get_log_header(&set(&[])), Vec::<String>::new());
    assert_eq!(Runner::get_log_header(&set(&[10])), vec!["cpu10"]);
}

#[test]
fn records_follow_ascending_core_order() {
    let row = Runner::format_record(&samples(&[(3, 42), (1, 7)]));
    assert_eq!(row, vec!["7", "42"]);
    assert_eq!(Runner::format_record(&samples(&[])), Vec::<String>::new());
}

#[test]
fn zero_duration_log_still_writes_the_header() {
    // a zero-duration run writes the header row and no data rows
    let cpuset = set(&[0, 1]);
    let mut writer = csv::Writer::from_writer(Vec::new());
    writer.write_record(Runner::get_log_header(&cpuset)).unwrap();
    let now: u64 = 1000;
    let end = Runner::log_end_ms(now, 0);
    let mut ticks: u32 = 0;
    while Runner::log_should_continue(now, end) {
        ticks += 1;
        break;
    }
    let bytes = writer.into_inner().unwrap();
    assert_eq!(String::from_utf8(bytes).unwrap(), "cpu0,cpu1\n");
    assert_eq!(ticks, 0);
}

#[test]
fn log_rows_round_trip_through_csv() {
    let cpuset = set(&[0, 1]);
    let mut writer = csv::Writer::from_writer(Vec::new());
    writer.write_record(Runner::get_log_header(&cpuset)).unwrap();
    writer
        .write_record(Runner::format_record(&samples(&[(0, 3_500_000), (1, 1_200_000)])))
        .unwrap();
    let bytes = writer.into_inner().unwrap();
    assert_eq!(
        String::from_utf8(bytes).unwrap(),
        "cpu0,cpu1\n3500000,1200000\n"
    );
}
