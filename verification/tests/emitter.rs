use dirwatch::emit::{
    base_name, dec_digits, emit_now, format_timestamp, notification_for, pad2, pad4, year_str,
    TimeParts,
};

fn parts(year: i32, month: u32, day: u32, hour: u32, minute: u32, second: u32) -> TimeParts {
    TimeParts { year, month, day, hour, minute, second }
}

#[test]
fn base_name_takes_last_segment() {
    assert_eq!(base_name(&String::from("/watch/sample.mkv")), "sample.mkv");
    assert_eq!(base_name(&String::from("/a/b/c.txt")), "c.txt");
    assert_eq!(base_name(&String::from("plain")), "plain");
    assert_eq!(base_name(&String::from("/watch/dir/")), "");
    assert_eq!(base_name(&String::from("")), "");
}

#[test]
fn timestamp_is_fixed_width() {
    let t = parts(2024, 3, 7, 9, 5, 30);
    assert_eq!(format_timestamp(&t), "2024-03-07 09:05:30");
    let t = parts(50, 12, 31, 23, 59, 59);
    assert_eq!(format_timestamp(&t), "0050-12-31 23:59:59");
    let t = parts(-44, 1, 1, 0, 0, 0);
    assert_eq!(format_timestamp(&t), "-0044-01-01 00:00:00");
}

#[test]
fn padding_and_digits() {
    assert_eq!(pad2(0), "00");
    assert_eq!(pad2(7), "07");
    assert_eq!(pad2(42), "42");
    assert_eq!(pad4(0), "0000");
    assert_eq!(pad4(93), "0093");
    assert_eq!(pad4(867), "0867");
    assert_eq!(pad4(2026), "2026");
    assert_eq!(pad4(123456), "123456");
    assert_eq!(dec_digits(0), "0");
    assert_eq!(dec_digits(10), "10");
    assert_eq!(dec_digits(90210), "90210");
    assert_eq!(year_str(-7), "-0007");
    assert_eq!(year_str(1984), "1984");
}

#[test]
fn notification_carries_name_and_time() {
    let t = parts(2025, 11, 2, 18, 30, 0);
    let n = notification_for(&String::from("/watch/movie.mkv"), &t);
    assert_eq!(n.name, "movie.mkv");
    assert_eq!(n.timestamp, "2025-11-02 18:30:00");
    // a path whose last segment is empty falls back to a placeholder
    let n = notification_for(&String::from("/watch/dir/"), &t);
    assert_eq!(n.name, "(unknown)");
}

/// The clock-backed notification: whatever instant the clock reports, the
/// name is derived from the path and the timestamp renders an in-range
/// calendar time in the fixed-width form.
#[test]
fn emit_now_renders_a_real_instant() {
    let n = emit_now(&String::from("/watch/now.bin"));
    assert_eq!(n.name, "now.bin");
    let ts: Vec<char> = n.timestamp.chars().collect();
    assert_eq!(ts.len(), 19);
    assert_eq!(ts[4], '-');
    assert_eq!(ts[7], '-');
    assert_eq!(ts[10], ' ');
    assert_eq!(ts[13], ':');
    assert_eq!(ts[16], ':');
    for &i in &[0usize, 1, 2, 3, 5, 6, 8, 9, 11, 12, 14, 15, 17, 18] {
        assert!(ts[i].is_ascii_digit(), "non-digit at {i}: {}", ts[i]);
    }
    let month: u32 = n.timestamp[5..7].parse().unwrap();
    let day: u32 = n.timestamp[8..10].parse().unwrap();
    let hour: u32 = n.timestamp[11..13].parse().unwrap();
    let minute: u32 = n.timestamp[14..16].parse().unwrap();
    let second: u32 = n.timestamp[17..19].parse().unwrap();
    assert!((1..=12).contains(&month));
    assert!((1..=31).contains(&day));
    assert!(hour < 24);
    assert!(minute < 60);
    assert!(second < 60);
}
