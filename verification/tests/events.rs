use spin_geospatial::events::{
    compute_dwell_seconds, detect_events, dwell_representable, format_timestamp, is_leap, iso_ms_representable,
    iso_timestamp, parse_iso_ms, ZoneObject,
};
use spin_geospatial::models::DeviceState;
use spin_geospatial::text::parse_i64;

fn obj(t: &str, id: &str, dept: Option<&str>) -> ZoneObject {
    ZoneObject { obj_type: t.to_string(), id: id.to_string(), department: dept.map(|d| d.to_string()) }
}

fn inside_state(store: &str, dept: Option<&str>, entered: &str) -> DeviceState {
    DeviceState {
        device_id: "phone".to_string(),
        store_id: Some(store.to_string()),
        department: dept.map(|d| d.to_string()),
        last_seen: entered.to_string(),
        consecutive_outside: 0,
        entered_at: Some(entered.to_string()),
    }
}

#[test]
fn integers_parse_like_std() {
    for s in ["0", "42", "-17", "+5", "007", "9223372036854775807", "-9223372036854775808", "", "-", "+", "1a", " 1", "9223372036854775808", "-9223372036854775809", "99999999999999999999999"] {
        assert_eq!(parse_i64(s), s.parse::<i64>().ok(), "{s}");
    }
}

#[test]
fn timestamps_parse_to_epoch_milliseconds() {
    assert_eq!(parse_iso_ms("1970-01-01T00:00:00Z"), Some(0));
    assert_eq!(parse_iso_ms("1970-01-01T00:00:01.5Z"), Some(1000 + 5));
    assert_eq!(parse_iso_ms("1970-01-01T00:00:01.123456Z"), Some(1123));
    assert_eq!(parse_iso_ms("1971-02-03T04:05:06.789"), Some(34_401_906_789));
    assert_eq!(parse_iso_ms("2025-01-01T00:00:00.000Z"), Some(1_735_689_600_000));
    assert_eq!(parse_iso_ms("1970-01-01T00:00:00ZZZ"), Some(0));
    assert_eq!(parse_iso_ms("1970-01-01 00:00:00"), None);
    assert_eq!(parse_iso_ms("1970-01T00:00:00"), None);
    assert_eq!(parse_iso_ms("1970-01-01-01T00:00:00"), None);
    assert_eq!(parse_iso_ms("1970-01-01T00:00"), None);
    assert_eq!(parse_iso_ms("1970-01-01T00:00:xx"), None);
}

#[test]
fn timestamps_read_back_what_format_writes() {
    for (secs, millis) in [(0u64, 0u32), (951_782_400, 7), (1_714_557_600, 123), (1_735_689_599, 999), (4_102_444_800, 500)] {
        let t = format_timestamp(secs, millis);
        assert_eq!(parse_iso_ms(&t), Some(secs as i64 * 1000 + millis as i64), "{t}");
    }
}

#[test]
fn out_of_range_months_and_days_roll_over() {
    assert_eq!(parse_iso_ms("2024-13-01T00:00:00Z"), parse_iso_ms("2025-01-01T00:00:00Z"));
    assert_eq!(parse_iso_ms("2024-02-30T00:00:00Z"), parse_iso_ms("2024-03-01T00:00:00Z"));
    assert_eq!(parse_iso_ms("2024-00-01T00:00:00Z"), parse_iso_ms("2023-12-01T00:00:00Z"));
}

#[test]
fn huge_timestamps_are_flagged() {
    assert!(iso_ms_representable("2024-05-01T10:00:00.000Z"));
    assert!(iso_ms_representable("garbage"));
    assert!(!iso_ms_representable("9223372036854775807-01-01T00:00:00Z"));
}

#[test]
fn dwell_seconds_between_timestamps() {
    assert_eq!(compute_dwell_seconds(Some("2024-05-01T10:00:00.000Z"), "2024-05-01T10:05:30.900Z"), Some(330));
    assert_eq!(compute_dwell_seconds(Some("2024-05-01T10:05:30.900Z"), "2024-05-01T10:00:00.000Z"), Some(-330));
    assert_eq!(compute_dwell_seconds(None, "2024-05-01T10:00:00.000Z"), None);
    assert_eq!(compute_dwell_seconds(Some("bad"), "2024-05-01T10:00:00.000Z"), None);
    assert_eq!(compute_dwell_seconds(Some("2024-05-01T10:00:00.000Z"), "bad"), None);
    assert!(dwell_representable(Some("2024-05-01T10:00:00.000Z"), "2024-05-01T10:00:00.000Z"));
    assert!(!dwell_representable(Some("1970-01-01T-2500000000000:00:00"), "1970-01-01T2500000000000:00:00"));
    assert!(!dwell_representable(Some("1970-01-01T00:00:00"), "99999999999999-01-01T00:00:00"));
}

#[test]
fn dwell_crosses_month_year_and_leap_day_boundaries() {
    assert_eq!(compute_dwell_seconds(Some("2024-01-31T23:00:00Z"), "2024-02-01T01:00:00Z"), Some(7200));
    assert_eq!(compute_dwell_seconds(Some("2024-12-31T23:59:00.000Z"), "2025-01-01T00:01:00.000Z"), Some(120));
    assert_eq!(compute_dwell_seconds(Some("2024-02-28T00:00:00Z"), "2024-03-01T00:00:00Z"), Some(172_800));
    assert_eq!(compute_dwell_seconds(Some("2023-02-28T00:00:00Z"), "2023-03-01T00:00:00Z"), Some(86_400));
    assert_eq!(compute_dwell_seconds(Some("2024-01-01T00:00:00Z"), "2025-01-01T00:00:00Z"), Some(31_622_400));
}

#[test]
fn leap_years() {
    assert!(is_leap(2024));
    assert!(!is_leap(2023));
    assert!(!is_leap(1900));
    assert!(is_leap(2000));
}

#[test]
fn timestamps_format_in_utc() {
    assert_eq!(format_timestamp(0, 0), "1970-01-01T00:00:00.000Z");
    assert_eq!(format_timestamp(951_782_400, 7), "2000-02-29T00:00:00.007Z");
    assert_eq!(format_timestamp(1_714_557_600, 123), "2024-05-01T10:00:00.123Z");
    assert_eq!(format_timestamp(1_735_689_599, 999), "2024-12-31T23:59:59.999Z");
}

#[test]
fn current_timestamp_is_well_formed() {
    let t = iso_timestamp();
    assert_eq!(t.len(), 24);
    assert!(t.ends_with('Z'));
    assert_eq!(&t[4..5], "-");
    assert_eq!(&t[10..11], "T");
    assert!(t.as_str() >= "2020");
}

#[test]
fn entering_a_venue() {
    let objs = vec![obj("department", "nypl-fiction", Some("fiction")), obj("store", "nypl", None)];
    let (events, state) = detect_events(None, &objs, "phone", "2024-05-01T10:00:00.000Z");
    assert_eq!(events.len(), 1);
    assert_eq!(events[0].event_type, "device.entered_store");
    assert_eq!(events[0].store_id, "nypl");
    assert_eq!(state.store_id, Some("nypl".to_string()));
    assert_eq!(state.department, Some("fiction".to_string()));
    assert_eq!(state.entered_at, Some("2024-05-01T10:00:00.000Z".to_string()));
    assert_eq!(state.consecutive_outside, 0);
}

#[test]
fn changing_department_inside_a_venue() {
    let prev = inside_state("nypl", Some("fiction"), "2024-05-01T10:00:00.000Z");
    let objs = vec![obj("store", "nypl", None), obj("department", "nypl-reference", None)];
    let (events, state) = detect_events(Some(&prev), &objs, "phone", "2024-05-01T10:01:00.000Z");
    assert_eq!(events.len(), 1);
    assert_eq!(events[0].event_type, "device.entered_department");
    assert_eq!(events[0].department, Some("nypl-reference".to_string()));
    assert_eq!(events[0].previous_department, Some("fiction".to_string()));
    assert_eq!(state.entered_at, Some("2024-05-01T10:00:00.000Z".to_string()));
    let objs = vec![obj("store", "nypl", None), obj("department", "x", Some("fiction"))];
    let (events, _) = detect_events(Some(&prev), &objs, "phone", "2024-05-01T10:01:00.000Z");
    assert_eq!(events.len(), 0);
}

#[test]
fn exit_needs_three_readings_outside() {
    let mut state = inside_state("nypl", Some("fiction"), "2024-05-01T10:00:00.000Z");
    let none: Vec<ZoneObject> = Vec::new();
    let (e1, s1) = detect_events(Some(&state), &none, "phone", "2024-05-01T10:05:00.000Z");
    assert!(e1.is_empty());
    assert_eq!(s1.consecutive_outside, 1);
    assert_eq!(s1.store_id, Some("nypl".to_string()));
    state = s1;
    let (e2, s2) = detect_events(Some(&state), &none, "phone", "2024-05-01T10:05:30.000Z");
    assert!(e2.is_empty());
    assert_eq!(s2.consecutive_outside, 2);
    state = s2;
    let (e3, s3) = detect_events(Some(&state), &none, "phone", "2024-05-01T10:06:00.000Z");
    assert_eq!(e3.len(), 1);
    assert_eq!(e3[0].event_type, "device.exited_store");
    assert_eq!(e3[0].store_id, "nypl");
    assert_eq!(e3[0].dwell_seconds, Some(360));
    assert_eq!(s3.store_id, None);
    assert_eq!(s3.department, None);
    assert_eq!(s3.entered_at, None);
    assert_eq!(s3.consecutive_outside, 0);
}

#[test]
fn coming_back_resets_the_outside_count() {
    let mut prev = inside_state("nypl", None, "2024-05-01T10:00:00.000Z");
    prev.consecutive_outside = 2;
    let objs = vec![obj("store", "nypl", None)];
    let (events, state) = detect_events(Some(&prev), &objs, "phone", "2024-05-01T10:10:00.000Z");
    assert!(events.is_empty());
    assert_eq!(state.consecutive_outside, 0);
}

#[test]
fn staying_outside_emits_nothing() {
    let none: Vec<ZoneObject> = Vec::new();
    let (events, state) = detect_events(None, &none, "phone", "t");
    assert!(events.is_empty());
    assert_eq!(state.store_id, None);
    assert_eq!(state.device_id, "phone");
    assert_eq!(state.last_seen, "t");
}

#[test]
fn timestamps_sort_in_clock_order() {
    let instants = [(0u64, 0u32), (0, 1), (59, 999), (86_399, 999), (86_400, 0), (951_782_399, 999), (951_782_400, 0), (1_735_689_599, 999), (1_735_689_600, 0)];
    for w in instants.windows(2) {
        let a = format_timestamp(w[0].0, w[0].1);
        let b = format_timestamp(w[1].0, w[1].1);
        assert!(a < b, "{a} {b}");
    }
}

#[test]
fn a_consistent_state_stays_consistent() {
    let none: Vec<ZoneObject> = Vec::new();
    let mut state = inside_state("nypl", None, "2024-05-01T10:00:00.000Z");
    for (i, ts) in ["2024-05-01T10:01:00.000Z", "2024-05-01T10:02:00.000Z", "2024-05-01T10:03:00.000Z"].iter().enumerate() {
        let (events, next) = detect_events(Some(&state), &none, "phone", ts);
        assert!(next.consecutive_outside <= 2);
        assert_eq!(next.store_id.is_some(), next.entered_at.is_some());
        if i == 2 {
            assert_eq!(events[0].event_type, "device.exited_store");
            assert_eq!(next.store_id, None);
        }
        state = next;
    }
}
