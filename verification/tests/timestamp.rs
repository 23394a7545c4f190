use metrics_exporter_csv::long2wide::wide::parse_timestamp;
use metrics_exporter_csv::timestamp::{current_timestamp, format_timestamp, timestamp_at};

#[test]
fn moments_are_written_with_milliseconds() {
    assert_eq!(format_timestamp(0), "1970-01-01T00:00:00.000Z");
    assert_eq!(format_timestamp(1_767_873_600_123), "2026-01-08T12:00:00.123Z");
    assert_eq!(format_timestamp(-1), "1969-12-31T23:59:59.999Z");
    assert_eq!(format_timestamp(-62_167_219_200_000), "0000-01-01T00:00:00.000Z");
    assert_eq!(format_timestamp(253_402_300_799_999), "9999-12-31T23:59:59.999Z");
    assert_eq!(format_timestamp(253_402_300_800_000), "+10000-01-01T00:00:00.000Z");
    assert_eq!(format_timestamp(8_210_266_876_799_999), "+262142-12-31T23:59:59.999Z");
}

#[test]
fn the_present_is_written_with_milliseconds() {
    let timestamp = current_timestamp();
    assert!(timestamp.ends_with('Z'), "timestamp missing Z suffix");
    let dot = timestamp.rfind('.').expect("timestamp missing milliseconds");
    assert_eq!(timestamp.len() - dot, 5, "timestamp millis length");
    assert!(parse_timestamp(&timestamp).is_ok());
}

#[test]
fn timestamps_read_back_as_their_moment() {
    for millis in [-62_167_219_200_000, -1500, -1, 0, 1, 999, 1000, 1_767_873_600_123, 253_402_300_799_999_i64] {
        let instant = parse_timestamp(&format_timestamp(millis)).expect("instant");
        assert_eq!(instant.seconds, millis.div_euclid(1000));
        assert_eq!(instant.nanos as i64, millis.rem_euclid(1000) * 1_000_000);
    }
}

#[test]
fn moments_are_cut_down_to_milliseconds() {
    assert_eq!(timestamp_at(0, 999_999_999), "1970-01-01T00:00:00.999Z");
    assert_eq!(timestamp_at(1_767_873_600, 123_999_999), "2026-01-08T12:00:00.123Z");
    assert_eq!(timestamp_at(1_767_873_600, 124_000_000), "2026-01-08T12:00:00.124Z");
    let instant = parse_timestamp(&timestamp_at(1_767_873_600, 123_456_789)).expect("instant");
    assert_eq!((instant.seconds, instant.nanos), (1_767_873_600, 123_000_000));
}

#[test]
fn timestamps_have_a_fixed_shape() {
    for text in [format_timestamp(-62_167_219_200_000), timestamp_at(253_402_300_799, 999_000_000), current_timestamp()] {
        assert_eq!(text.len(), 24);
        for (i, c) in text.chars().enumerate() {
            match i {
                4 | 7 => assert_eq!(c, '-'),
                10 => assert_eq!(c, 'T'),
                13 | 16 => assert_eq!(c, ':'),
                19 => assert_eq!(c, '.'),
                23 => assert_eq!(c, 'Z'),
                _ => assert!(c.is_ascii_digit()),
            }
        }
    }
}

#[test]
fn timestamps_read_back_in_order() {
    let earlier = parse_timestamp(&format_timestamp(1_767_873_600_123)).expect("instant");
    let later = parse_timestamp(&format_timestamp(1_767_873_600_124)).expect("instant");
    assert!(earlier.is_before(&later));
    assert!(!later.is_before(&earlier));
    assert!(!earlier.is_before(&earlier));
}

#[test]
fn offsets_name_the_same_moment() {
    let utc = parse_timestamp("2026-01-08T12:00:00Z").expect("instant");
    let local = parse_timestamp("2026-01-08T13:00:00+01:00").expect("instant");
    assert_eq!((utc.seconds, utc.nanos), (local.seconds, local.nanos));
    assert_eq!(local.display, "2026-01-08 13:00:00 +01:00");
}

#[test]
fn other_texts_are_refused() {
    let error = parse_timestamp("yesterday").err().expect("refused");
    assert_eq!(error.message(), "invalid timestamp: yesterday");
}
