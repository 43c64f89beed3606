use omni_ping::clock::LocalFields;
use omni_ping::text::{bucket_label, datetime_string, interval_name_string, label_less, same_text, push_year, Interval};

fn fields(year: i32, month: u32, day: u32, hour: u32, minute: u32, second: u32, iso_week: u32) -> LocalFields {
    LocalFields { year, month, day, hour, minute, second, iso_week }
}

fn s(v: Vec<char>) -> String {
    v.into_iter().collect()
}

#[test]
fn labels_follow_each_bucket_format() {
    let f = fields(2024, 3, 7, 9, 5, 2, 10);
    assert_eq!(s(bucket_label(Interval::RawSec, &f)), "09:05:02");
    assert_eq!(s(bucket_label(Interval::Minute, &f)), "09:05");
    assert_eq!(s(bucket_label(Interval::Hour, &f)), "03-07 09:00");
    assert_eq!(s(bucket_label(Interval::Day, &f)), "2024-03-07");
}

#[test]
fn year_is_written_as_chrono_writes_it() {
    let mut out = Vec::new();
    push_year(&mut out, 7);
    assert_eq!(s(out), "0007");
    let mut out = Vec::new();
    push_year(&mut out, 12345);
    assert_eq!(s(out), "+12345");
    let mut out = Vec::new();
    push_year(&mut out, -5);
    assert_eq!(s(out), "-0005");
    let mut out = Vec::new();
    push_year(&mut out, 1999);
    assert_eq!(s(out), "1999");
}

#[test]
fn datetime_is_written_in_full() {
    let f = fields(2023, 12, 31, 23, 59, 58, 52);
    assert_eq!(datetime_string(&f), "2023-12-31 23:59:58");
}

#[test]
fn interval_names() {
    assert_eq!(interval_name_string(Interval::RawSec), "Raw (Sec)");
    assert_eq!(interval_name_string(Interval::Minute), "Minute");
    assert_eq!(interval_name_string(Interval::Hour), "Hour");
    assert_eq!(interval_name_string(Interval::Day), "Day");
}

#[test]
fn labels_sort_as_strings_do() {
    let a: Vec<char> = "2024-W10".chars().collect();
    let b: Vec<char> = "2024-W9".chars().collect();
    assert!(label_less(&a, &b));
    assert!(!label_less(&b, &a));
    assert!(!label_less(&a, &a));
    let c: Vec<char> = "09:05".chars().collect();
    let d: Vec<char> = "09:05:00".chars().collect();
    assert!(label_less(&c, &d));
    assert!(same_text(&c, &c.clone()));
    assert!(!same_text(&c, &d));
}
