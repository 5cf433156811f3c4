//! Timings, sizes and readings for the log.

use subroutines::pcs::multilinear_kzg::memory::{
    batch_open_footprint, batch_open_format_bytes, format_bytes, srs_footprint,
};
use subroutines::pcs::multilinear_kzg::rss::{rss_from_ps, rss_from_status, RssReading};
use subroutines::pcs::multilinear_kzg::srs::Evaluations;
use subroutines::pcs::multilinear_kzg::timing::{
    batch_open_record_stage, batch_open_timing_enabled, current_batch_open_context,
    record_batch_open_timing, BatchOpenContexts, BatchOpenTimings,
};
use subroutines::pcs::prelude::{
    batch_open_timing_stats, reset_batch_open_timing_stats, scoped_batch_open_context,
    set_batch_open_timing_enabled,
};

fn chars(text: &str) -> Vec<char> {
    text.chars().collect()
}

/// The size as floating-point arithmetic writes it.
fn float_text(bytes: usize) -> String {
    let units = ["B", "KiB", "MiB", "GiB", "TiB"];
    let mut value = bytes as f64;
    let mut unit = 0usize;
    while value >= 1024.0 && unit + 1 < units.len() {
        value /= 1024.0;
        unit += 1;
    }
    if unit == 0 {
        format!("{bytes} {}", units[unit])
    } else {
        format!("{value:.2} {}", units[unit])
    }
}

#[test]
fn sizes_are_written_as_floating_point_writes_them() {
    let mut sizes = vec![0, 1, 1023, 1024, 1029, 1030, 1152, 1408, 1536, 10_000, 123_456_789];
    for shift in 10..64 {
        let power = 1usize << shift;
        sizes.push(power);
        sizes.push(power - 1);
        sizes.push(power + power / 8);
        sizes.push(power + 3 * (power / 8));
        sizes.push(power + power / 3);
    }
    sizes.push(usize::MAX);
    sizes.push(9_007_199_254_740_993);
    sizes.push(9_007_199_254_740_995);
    let mut x = 88172645463325252usize;
    for _ in 0..2000 {
        x ^= x << 13;
        x ^= x >> 7;
        x ^= x << 17;
        sizes.push(x);
        sizes.push(x >> 20);
        sizes.push(x >> 41);
    }
    for bytes in sizes {
        assert_eq!(format_bytes(bytes), float_text(bytes));
        assert_eq!(batch_open_format_bytes(bytes), float_text(bytes));
    }
    assert_eq!(format_bytes(1152), "1.12 KiB");
    assert_eq!(format_bytes(1408), "1.38 KiB");
}

#[test]
fn contexts_nest() {
    let mut contexts = BatchOpenContexts::new();
    assert_eq!(current_batch_open_context(&contexts), None);
    let mut outer = scoped_batch_open_context(&mut contexts, "outer".to_string());
    let mut inner = scoped_batch_open_context(&mut contexts, "inner".to_string());
    assert_eq!(current_batch_open_context(&contexts), Some("inner".to_string()));
    inner.close(&mut contexts);
    inner.close(&mut contexts);
    assert_eq!(current_batch_open_context(&contexts), Some("outer".to_string()));
    outer.close(&mut contexts);
    assert_eq!(current_batch_open_context(&contexts), None);
}

#[test]
fn timings_are_recorded_only_if_enabled() {
    let mut timings = BatchOpenTimings::new();
    assert!(!batch_open_timing_enabled(&timings));
    record_batch_open_timing(&mut timings, "a", 5);
    assert!(batch_open_timing_stats(&timings).is_empty());
    set_batch_open_timing_enabled(&mut timings, true);
    assert!(batch_open_timing_enabled(&timings));
    record_batch_open_timing(&mut timings, "a", 5);
    record_batch_open_timing(&mut timings, "a", 7);
    let stats = batch_open_timing_stats(&timings);
    assert_eq!(stats.len(), 1);
    assert_eq!((stats[0].label.as_str(), stats[0].total_ns, stats[0].count), ("a", 12, 2));
    reset_batch_open_timing_stats(&mut timings);
    assert!(batch_open_timing_stats(&timings).is_empty());
    assert!(batch_open_timing_enabled(&timings));
}

#[test]
fn report_adds_up_what_was_recorded_while_enabled() {
    let mut timings = BatchOpenTimings::new();
    set_batch_open_timing_enabled(&mut timings, true);
    record_batch_open_timing(&mut timings, "a", 1000);
    reset_batch_open_timing_stats(&mut timings);
    record_batch_open_timing(&mut timings, "a", 1);
    record_batch_open_timing(&mut timings, "b", 20);
    set_batch_open_timing_enabled(&mut timings, false);
    record_batch_open_timing(&mut timings, "a", 300);
    set_batch_open_timing_enabled(&mut timings, true);
    record_batch_open_timing(&mut timings, "a", 4);
    let stats: Vec<_> = batch_open_timing_stats(&timings)
        .into_iter()
        .map(|stat| (stat.label, stat.total_ns, stat.count))
        .collect();
    assert_eq!(stats, vec![("b".to_string(), 20, 1), ("a".to_string(), 5, 2)]);
}

#[test]
fn report_is_sorted_by_time_and_label() {
    let mut timings = BatchOpenTimings::new();
    set_batch_open_timing_enabled(&mut timings, true);
    for (label, ns) in [("b", 5), ("ab", 9), ("a", 9), ("\u{e9}", 9), ("z", 9), ("c", 20)] {
        record_batch_open_timing(&mut timings, label, ns);
    }
    let labels: Vec<String> =
        batch_open_timing_stats(&timings).into_iter().map(|stat| stat.label).collect();
    assert_eq!(labels, vec!["c", "a", "ab", "z", "\u{e9}", "b"]);
}

#[test]
fn stages_are_labelled_by_their_context() {
    let mut timings = BatchOpenTimings::new();
    let mut contexts = BatchOpenContexts::new();
    set_batch_open_timing_enabled(&mut timings, true);
    batch_open_record_stage(&mut timings, &contexts, "total", 3);
    let _guard = scoped_batch_open_context(&mut contexts, "setup".to_string());
    batch_open_record_stage(&mut timings, &contexts, "total", 4);
    let labels: Vec<String> =
        batch_open_timing_stats(&timings).into_iter().map(|stat| stat.label).collect();
    assert_eq!(labels, vec!["setup / total", "pcs batch_open / total"]);
}

#[test]
fn footprints() {
    assert_eq!(batch_open_footprint(10, 3, 2, 32), (960, 32768, 65536));
    assert_eq!(batch_open_footprint(64, 0, 2, 1), (0, usize::MAX, usize::MAX));
    let tables = [Evaluations { evals: vec![1u8, 2, 3] }, Evaluations { evals: vec![4u8] }];
    assert_eq!(srs_footprint(&tables, 96, Some(8), 32), (4, 384, 256));
    assert_eq!(srs_footprint::<u8>(&[], 96, None, 32), (0, 0, 0));
    assert_eq!(srs_footprint(&tables, usize::MAX, None, 32), (4, usize::MAX, 0));
}

#[test]
fn resident_size_from_the_status_report() {
    let report = "Name:\tprover\nVmPeak:\t  900 kB\nVmRSS:\t    1234 kB\nVmRSS:\t 7 kB\n";
    assert_eq!(rss_from_status(&chars(report)), RssReading::Bytes(1234 * 1024));
    assert_eq!(rss_from_status(&chars("Name: VmRSS: 5\n")), RssReading::Absent);
    assert_eq!(rss_from_status(&chars("")), RssReading::Absent);
    assert_eq!(rss_from_status(&chars("VmRSS:\n5 kB")), RssReading::Unreadable);
    assert_eq!(rss_from_status(&chars("VmRSS: x kB")), RssReading::Unreadable);
    assert_eq!(rss_from_status(&chars("VmRSS: +5 kB")), RssReading::Bytes(5120));
    assert_eq!(
        rss_from_status(&chars("VmRSS: 18446744073709551615")),
        RssReading::Bytes(u64::MAX)
    );
    assert_eq!(rss_from_status(&chars("VmRSS: 18446744073709551616")), RssReading::Unreadable);
}

#[test]
fn resident_size_from_ps() {
    assert_eq!(rss_from_ps(&chars("  2048\n")), Some(2048 * 1024));
    assert_eq!(rss_from_ps(&chars("\n")), None);
    assert_eq!(rss_from_ps(&chars("20 48")), None);
    assert_eq!(rss_from_ps(&chars("+")), None);
    assert_eq!(rss_from_ps(&chars("-1")), None);
}
