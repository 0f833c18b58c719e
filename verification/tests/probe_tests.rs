use std::collections::HashSet;

use freqprobe::errors::ProbeError;
use freqprobe::probe::{
    cpuset_with_stats, parse_cpu_entry_name, parse_mhz_value, parse_procfs_cpuinfo,
    parse_sysfs_cpuinfo, parse_sysfs_value, split_lines, sysfs_cpu_path, validate_cpuset,
    WINDOW_SIZE,
};

fn set(ids: &[usize]) -> HashSet<usize> {
    ids.iter().copied().collect()
}

#[test]
fn validate_cpuset_collapses_duplicates() {
    let got = validate_cpuset("0,2,2,5".to_string()).unwrap();
    assert_eq!(got, set(&[0, 2, 5]));
}

#[test]
fn validate_cpuset_names_bad_token() {
    match validate_cpuset("0,x,5".to_string()) {
        Err(ProbeError::InvalidCpuId(tok)) => assert_eq!(tok, "x"),
        _ => panic!("expected InvalidCpuId"),
    }
}

#[test]
fn validate_cpuset_single_id() {
    let got = validate_cpuset("7".to_string()).unwrap();
    assert_eq!(got, set(&[7]));
}

#[test]
fn validate_cpuset_rejects_empty_tokens() {
    match validate_cpuset(String::new()) {
        Err(ProbeError::InvalidCpuId(tok)) => assert_eq!(tok, ""),
        _ => panic!("expected InvalidCpuId"),
    }
    match validate_cpuset("3,".to_string()) {
        Err(ProbeError::InvalidCpuId(tok)) => assert_eq!(tok, ""),
        _ => panic!("expected InvalidCpuId"),
    }
}

#[test]
fn validate_cpuset_reports_leftmost_bad_token() {
    match validate_cpuset("1,oops,x".to_string()) {
        Err(ProbeError::InvalidCpuId(tok)) => assert_eq!(tok, "oops"),
        _ => panic!("expected InvalidCpuId"),
    }
}

#[test]
fn sysfs_value_takes_first_token() {
    assert_eq!(parse_sysfs_value("3500000\n").unwrap(), 3_500_000);
    assert_eq!(parse_sysfs_value("  42 trailing words").unwrap(), 42);
}

#[test]
fn sysfs_value_rejects_non_numbers() {
    match parse_sysfs_value("abc") {
        Err(ProbeError::IntConversionError(tok)) => assert_eq!(tok, "abc"),
        _ => panic!("expected IntConversionError"),
    }
    match parse_sysfs_value("") {
        Err(ProbeError::IntConversionError(tok)) => assert_eq!(tok, ""),
        _ => panic!("expected IntConversionError"),
    }
}

#[test]
fn cpu_entry_names_parse_to_ids() {
    assert_eq!(parse_cpu_entry_name("cpu0"), Some(0));
    assert_eq!(parse_cpu_entry_name("cpu12"), Some(12));
    assert_eq!(parse_cpu_entry_name("cpufreq"), None);
    assert_eq!(parse_cpu_entry_name("cpuidle"), None);
    assert_eq!(parse_cpu_entry_name("cpu"), None);
    assert_eq!(parse_cpu_entry_name("power"), None);
}

#[test]
fn sysfs_path_names_the_counter_file() {
    assert_eq!(
        sysfs_cpu_path(3),
        "/sys/devices/system/cpu/cpu3/cpufreq/scaling_cur_freq"
    );
    assert_eq!(
        sysfs_cpu_path(17),
        "/sys/devices/system/cpu/cpu17/cpufreq/scaling_cur_freq"
    );
}

#[test]
fn mhz_values_convert_to_sample_units() {
    // decimal megahertz, multiplied by 1000 and truncated
    assert_eq!(parse_mhz_value("2500.125"), Some(2_500_125));
    assert_eq!(parse_mhz_value("2500"), Some(2_500_000));
    assert_eq!(parse_mhz_value("2500.1"), Some(2_500_100));
    assert_eq!(parse_mhz_value("2500.1259"), Some(2_500_125));
    assert_eq!(parse_mhz_value("0.0009"), Some(0));
    assert_eq!(parse_mhz_value(".5"), Some(500));
    assert_eq!(parse_mhz_value("2500."), Some(2_500_000));
}

#[test]
fn mhz_values_reject_malformed_text() {
    assert_eq!(parse_mhz_value(""), None);
    assert_eq!(parse_mhz_value("."), None);
    assert_eq!(parse_mhz_value("x"), None);
    assert_eq!(parse_mhz_value("1.2.3"), None);
    assert_eq!(parse_mhz_value("-1.0"), None);
    assert_eq!(parse_mhz_value("12a"), None);
}

#[test]
fn split_lines_handles_newlines_and_crlf() {
    let lines = split_lines("a\nb\r\nc");
    assert_eq!(lines, vec!["a", "b", "c"]);
    assert_eq!(split_lines(""), Vec::<&str>::new());
    assert_eq!(split_lines("one\n"), vec!["one"]);
}

#[test]
fn procfs_scan_reads_tracked_cores() {
    let text = "processor\t: 0\n\
                vendor_id\t: acme\n\
                cpu MHz\t\t: 2500.125\n\
                processor\t: 1\n\
                cpu MHz\t\t: 1800.000\n";
    let got = parse_procfs_cpuinfo(&set(&[0, 1]), text).unwrap();
    assert_eq!(got.get(&0), Some(&2_500_125));
    assert_eq!(got.get(&1), Some(&1_800_000));
}

#[test]
fn procfs_scan_ignores_untracked_cores() {
    let text = "processor\t: 0\n\
                cpu MHz\t\t: 2500.125\n\
                processor\t: 1\n\
                cpu MHz\t\t: 1800.000\n";
    let got = parse_procfs_cpuinfo(&set(&[1]), text).unwrap();
    assert_eq!(got.len(), 1);
    assert_eq!(got.get(&1), Some(&1_800_000));
}

#[test]
fn procfs_scan_omits_missing_cores() {
    // a tracked core the text never mentions is absent, not zero
    let text = "processor\t: 0\ncpu MHz\t\t: 1000.0\n";
    let got = parse_procfs_cpuinfo(&set(&[0, 5]), text).unwrap();
    assert_eq!(got.len(), 1);
    assert!(got.get(&5).is_none());
}

#[test]
fn procfs_scan_fails_on_missing_delimiter() {
    let text = "processor\t: 0\ncpu MHz 2500.125\n";
    match parse_procfs_cpuinfo(&set(&[0]), text) {
        Err(ProbeError::ProcfsError(msg)) => assert_eq!(msg, "incorrect file format"),
        _ => panic!("expected ProcfsError"),
    }
}

#[test]
fn procfs_scan_fails_on_bad_frequency() {
    let text = "processor\t: 0\ncpu MHz\t\t: fast\n";
    match parse_procfs_cpuinfo(&set(&[0]), text) {
        Err(ProbeError::IntConversionError(tok)) => assert_eq!(tok, "fast"),
        _ => panic!("expected IntConversionError"),
    }
}

#[test]
fn procfs_scan_fails_on_bad_core_id() {
    let text = "processor\t: x\ncpu MHz\t\t: 1000.0\n";
    match parse_procfs_cpuinfo(&set(&[0]), text) {
        Err(ProbeError::IntConversionError(tok)) => assert_eq!(tok, "x"),
        _ => panic!("expected IntConversionError"),
    }
}

#[test]
fn stats_builders_cover_the_cpuset() {
    let stats = cpuset_with_stats(&set(&[0, 2])).unwrap();
    assert_eq!(stats.len(), 2);
    let st = stats.get(&2).unwrap();
    assert_eq!(st.id(), 2);
    assert_eq!(st.window_size(), WINDOW_SIZE);
    assert_eq!(st.sample_count(), 0);

    let by_id = parse_sysfs_cpuinfo(&set(&[1])).unwrap();
    assert_eq!(by_id.len(), 1);
    assert_eq!(by_id.get(&1).unwrap().id(), 1);
}

#[test]
fn probe_error_messages_name_their_cause() {
    let e = ProbeError::InvalidCpuId("x".to_string());
    assert_eq!(e.message(), "invalid cpu ID: x");
    let e = ProbeError::IntConversionError("abc".to_string());
    assert_eq!(e.message(), "ID conversion error: abc could not be converted to uint");
    let e = ProbeError::SysfsError("gone".to_string());
    assert_eq!(e.message(), "sysfs error: gone");
    let e = ProbeError::ProcfsError("gone".to_string());
    assert_eq!(e.message(), "procfs error: gone");
}
