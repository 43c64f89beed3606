use omni_ping::clock::LocalFields;
use omni_ping::stats::{interval_for_span, Sample, Stats, ZoomParams};
use omni_ping::text::Interval;

const T0: i64 = 1_700_000_000;

fn sample(secs: i64, latency: Option<u64>) -> Sample {
    Sample::new(secs, 0, latency).unwrap()
}

fn at(secs: i64, nanos: u32) -> Sample {
    Sample::new(secs, nanos, None).unwrap()
}

fn fields(hour: u32, minute: u32, second: u32) -> LocalFields {
    LocalFields { year: 2023, month: 11, day: 14, hour, minute, second, iso_week: 46 }
}

#[test]
fn sample_rejects_times_chrono_cannot_hold() {
    assert!(Sample::new(i64::MAX, 0, None).is_none());
    assert!(Sample::new(T0, 1_000_000_000, None).is_none());
    let s = Sample::new(T0, 5, Some(7)).unwrap();
    assert_eq!((s.secs(), s.nanos(), s.latency_nanos()), (T0, 5, Some(7)));
}

#[test]
fn window_keeps_the_latest_samples() {
    let mut st = Stats::new("example.org:51800", 3);
    for i in 0..5 {
        st.record(sample(T0 + i, Some(i as u64)));
    }
    assert_eq!(st.len(), 3);
    assert_eq!(st.total_sent(), 5);
    let kept: Vec<i64> = st.samples().iter().map(|s| s.secs()).collect();
    assert_eq!(kept, vec![T0 + 2, T0 + 3, T0 + 4]);
    assert_eq!(st.target(), "example.org:51800");
    assert_eq!(st.max_entries(), 3);
}

#[test]
fn zero_cap_keeps_no_sample_but_counts_pings() {
    let mut st = Stats::new("h", 0);
    st.record(sample(T0, None));
    st.record(sample(T0 + 1, None));
    assert_eq!(st.len(), 0);
    assert_eq!(st.total_sent(), 2);
}

#[test]
fn zoom_keeps_samples_between_inclusive_bounds() {
    let mut st = Stats::new("h", 100);
    for i in 0..10 {
        st.record(sample(T0 + i, None));
    }
    let q = ZoomParams { start: Some(T0 + 3), end: Some(T0 + 5) };
    let z: Vec<i64> = st.zoomed_samples(&q).iter().map(|s| s.secs()).collect();
    assert_eq!(z, vec![T0 + 3, T0 + 4, T0 + 5]);
    let q = ZoomParams { start: None, end: Some(T0 + 1) };
    assert_eq!(st.zoomed_samples(&q).len(), 2);
    let q = ZoomParams { start: Some(T0 + 8), end: None };
    assert_eq!(st.zoomed_samples(&q).len(), 2);
    assert_eq!(st.zoomed_samples(&ZoomParams::default()).len(), 10);
}

#[test]
fn interval_follows_the_span() {
    assert_eq!(interval_for_span(&at(T0, 0), &at(T0 + 599, 999_999_999)), Interval::RawSec);
    assert_eq!(interval_for_span(&at(T0, 0), &at(T0 + 600, 0)), Interval::Minute);
    assert_eq!(interval_for_span(&at(T0, 900_000_000), &at(T0 + 600, 100_000_000)), Interval::RawSec);
    assert_eq!(interval_for_span(&at(T0, 0), &at(T0 + 6 * 3600 - 1, 0)), Interval::Minute);
    assert_eq!(interval_for_span(&at(T0, 0), &at(T0 + 6 * 3600, 0)), Interval::Hour);
    assert_eq!(interval_for_span(&at(T0, 0), &at(T0 + 3 * 86400, 0)), Interval::Day);
    assert_eq!(interval_for_span(&at(T0, 0), &at(T0 + 28 * 86400 - 1, 0)), Interval::Day);
    assert_eq!(interval_for_span(&at(T0, 0), &at(T0 + 28 * 86400, 0)), Interval::Day);
    assert_eq!(interval_for_span(&at(T0, 0), &at(T0 + 400 * 86400, 0)), Interval::Day);
    assert_eq!(interval_for_span(&at(T0 + 10_000, 0), &at(T0, 0)), Interval::RawSec);
}

fn four_sample_stats() -> Stats {
    let mut st = Stats::new("srv", 10);
    st.record(sample(T0, Some(2_000_000)));
    st.record(sample(T0 + 1, None));
    st.record(sample(T0 + 2, Some(1_000_000)));
    st.record(sample(T0 + 3, Some(4_000_000)));
    st
}

#[test]
fn report_buckets_samples_by_label_in_label_order() {
    let st = four_sample_stats();
    let cals = vec![fields(10, 0, 1), fields(10, 0, 0), fields(10, 0, 1), fields(9, 59, 59)];
    let r = st.build_final_stats(&ZoomParams::default(), &cals);
    assert_eq!(r.target, "srv");
    assert_eq!(r.interval, Some(Interval::RawSec));
    assert_eq!(r.interval_name, "Raw (Sec)");
    assert_eq!(r.start_time_str, "2023-11-14 10:00:01");
    assert_eq!(r.end_time_str, "2023-11-14 09:59:59");
    assert_eq!(r.total_transmitted, 4);
    assert_eq!(r.entries_in_range, 4);
    assert_eq!(r.total_received, 3);
    assert_eq!(r.latencies, vec![2_000_000, 1_000_000, 4_000_000]);
    assert_eq!(r.min_latency_nanos, Some(1_000_000));
    assert_eq!(r.max_latency_nanos, Some(4_000_000));
    assert!(!r.is_zoomed);
    let labels: Vec<&str> = r.points.iter().map(|p| p.label.as_str()).collect();
    assert_eq!(labels, vec!["09:59:59", "10:00:00", "10:00:01"]);
    assert_eq!(r.points[0].latencies, vec![4_000_000]);
    assert_eq!(r.points[1].latencies, Vec::<u64>::new());
    assert_eq!(r.points[1].timeouts, 1);
    assert_eq!(r.points[2].latencies, vec![2_000_000, 1_000_000]);
    assert_eq!((r.points[2].start_ts, r.points[2].end_ts), (T0, T0 + 2));
    assert_eq!((r.points[0].start_ts, r.points[0].end_ts), (T0 + 3, T0 + 3));
}

#[test]
fn zoomed_report_counts_only_samples_in_range_but_all_sent() {
    let st = four_sample_stats();
    let q = ZoomParams { start: Some(T0 + 1), end: Some(T0 + 2) };
    let cals = vec![fields(10, 0, 0), fields(10, 0, 1)];
    let r = st.build_final_stats(&q, &cals);
    assert!(r.is_zoomed);
    assert_eq!(r.entries_in_range, 2);
    assert_eq!(r.total_received, 1);
    assert_eq!(r.total_transmitted, 4);
    assert_eq!(r.points.len(), 2);
}

#[test]
fn report_with_nothing_in_range_is_empty() {
    let st = four_sample_stats();
    let q = ZoomParams { start: Some(T0 + 100), end: None };
    let r = st.build_final_stats(&q, &Vec::new());
    assert_eq!(r.target, "srv");
    assert_eq!(r.start_time_str, "N/A");
    assert_eq!(r.end_time_str, "N/A");
    assert_eq!(r.interval_name, "None");
    assert_eq!(r.interval, None);
    assert_eq!(r.total_transmitted, 0);
    assert_eq!(r.total_received, 0);
    assert!(r.points.is_empty());
    assert!(!r.is_zoomed);
    let e = st.empty_stats();
    assert_eq!(e.interval_name, "None");
    assert_eq!(st.to_final_stats(q).start_time_str, "N/A");
}

#[test]
fn report_buckets_add_up_to_samples_in_range() {
    let mut st = Stats::new("srv", 1000);
    for i in 0..300i64 {
        let lat = if i % 7 == 0 { None } else { Some(1_000_000 + i as u64) };
        st.record(sample(T0 + i * 37, lat));
    }
    let r = st.to_final_stats(ZoomParams::default());
    assert_eq!(r.entries_in_range, 300);
    assert_eq!(r.interval, Some(Interval::Minute));
    let total: usize = r.points.iter().map(|p| p.latencies.len() + p.timeouts).sum();
    assert_eq!(total, 300);
    assert_eq!(r.total_received, 300 - 43);
    for w in r.points.windows(2) {
        assert!(w[0].label < w[1].label);
    }
    for p in &r.points {
        assert!(p.latencies.len() + p.timeouts >= 1);
        assert!(p.start_ts <= p.end_ts);
    }
}

#[test]
fn bucket_time_range_covers_its_samples() {
    let mut st = Stats::new("srv", 1000);
    for i in 0..50i64 {
        st.record(sample(T0 + i * 20, Some(5)));
    }
    let r = st.to_final_stats(ZoomParams::default());
    assert_eq!(r.interval, Some(Interval::Minute));
    for p in &r.points {
        let q = ZoomParams { start: Some(p.start_ts), end: Some(p.end_ts) };
        let zoomed = st.to_final_stats(q);
        assert!(zoomed.entries_in_range >= p.latencies.len() + p.timeouts);
        assert!(zoomed.is_zoomed);
        assert_eq!(zoomed.interval, Some(Interval::RawSec));
    }
}

fn rank(iv: Option<Interval>) -> u8 {
    match iv {
        Some(Interval::RawSec) => 0,
        Some(Interval::Minute) => 1,
        Some(Interval::Hour) => 2,
        Some(Interval::Day) => 3,
        None => 9,
    }
}

#[test]
fn drilling_into_a_bucket_gives_a_finer_grain() {
    for step in [1i64, 30, 600, 3600] {
        let mut st = Stats::new("srv", 10_000);
        for i in 0..400i64 {
            st.record(sample(T0 + i * step, Some(1)));
        }
        let r = st.to_final_stats(ZoomParams::default());
        for p in &r.points {
            let r2 = st.to_final_stats(ZoomParams { start: Some(p.start_ts), end: Some(p.end_ts) });
            assert!(r2.interval.is_some() && r2.is_zoomed);
            assert!(
                rank(r2.interval) < rank(r.interval)
                    || (r.interval == Some(Interval::RawSec) && r2.interval == Some(Interval::RawSec))
            );
        }
    }
}

#[test]
fn buckets_lie_inside_the_zoom_range() {
    let mut st = Stats::new("srv", 1000);
    for i in 0..100i64 {
        st.record(sample(T0 + i * 7, if i % 3 == 0 { None } else { Some(9) }));
    }
    let q = ZoomParams { start: Some(T0 + 50), end: Some(T0 + 400) };
    let r = st.to_final_stats(q);
    for p in &r.points {
        assert!(T0 + 50 <= p.start_ts && p.start_ts <= p.end_ts && p.end_ts <= T0 + 400);
    }
}

#[test]
fn nested_zoom_never_reports_more_answers() {
    let mut st = Stats::new("srv", 1000);
    for i in 0..100i64 {
        st.record(sample(T0 + i, if i % 4 == 0 { None } else { Some(3) }));
    }
    let outer = st.to_final_stats(ZoomParams { start: Some(T0 + 10), end: Some(T0 + 80) });
    let inner = st.to_final_stats(ZoomParams { start: Some(T0 + 20), end: Some(T0 + 30) });
    assert!(inner.total_received <= outer.total_received);
    assert_eq!(inner.total_transmitted, 100);
    assert_eq!(outer.total_transmitted, 100);
}

#[test]
fn window_never_exceeds_its_cap() {
    for cap in 0..5usize {
        let mut st = Stats::new("srv", cap);
        for i in 0..10i64 {
            st.record(sample(T0 + i, None));
            assert!(st.len() <= cap);
        }
        let kept: Vec<i64> = st.samples().iter().map(|s| s.secs()).collect();
        let expected: Vec<i64> = (10 - cap as i64..10).map(|i| T0 + i).collect();
        assert_eq!(kept, expected);
    }
}

#[test]
fn report_reads_send_times_in_a_calendar() {
    let mut st = Stats::new("srv", 10);
    st.record(sample(T0, Some(1)));
    st.record(sample(T0 + 30, Some(2)));
    let r = st.to_final_stats(ZoomParams::default());
    assert_eq!(r.start_time_str.len(), 19);
    assert!(r.start_time_str.starts_with("2023-11-1"));
    assert_eq!(&r.start_time_str[13..14], ":");
    assert_eq!(r.interval, Some(Interval::RawSec));
    for p in &r.points {
        assert_eq!(p.label.len(), 8);
        assert_eq!(&p.label[2..3], ":");
    }
}
