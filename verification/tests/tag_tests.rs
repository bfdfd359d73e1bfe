use rhiz_tag::buffer::StrBuf;
use rhiz_tag::{
    base_x, decompose, rev_x, to_datetag_array, to_datetag_buf, to_datetag_string, to_tag,
    CalendarTimestamp, TagBuf, TagError, VecBuf, BASE54, EPOCH_YEAR, RAND_RANGE,
};

const ALPHABET: &str = "abcdefghijkmnopqrstuvwxyzABCDEFGHJKLMNPQRSTUVWXYZ34689";

fn ts(year: i32, month: u8, day: u8, hour: u8, minute: u8, second: u8) -> CalendarTimestamp {
    CalendarTimestamp::new(year, month, day, hour, minute, second)
}

fn encode(n: i32) -> String {
    let mut vb = VecBuf::new();
    base_x(&mut vb, n, &BASE54).unwrap();
    String::from_utf8(vb.bytes().clone()).unwrap()
}

#[test]
fn alphabet_matches_base54() {
    assert_eq!(ALPHABET.as_bytes(), &BASE54);
    assert_eq!(BASE54.len(), 54);
    for i in 0..54 {
        for j in 0..i {
            assert_ne!(BASE54[i], BASE54[j]);
        }
    }
}

#[test]
fn encode_zero_is_first_symbol() {
    assert_eq!(encode(0), "a");
}

#[test]
fn encode_known_values() {
    assert_eq!(encode(1), "b");
    assert_eq!(encode(19), "u");
    assert_eq!(encode(39), "Q");
    assert_eq!(encode(53), "9");
    assert_eq!(encode(54), "ba");
    assert_eq!(encode(53 * 54 + 53), "99");
    assert_eq!(encode(54 * 54 * 54 - 1), "999");
}

#[test]
fn decode_known_values() {
    assert_eq!(rev_x("a", ALPHABET), Ok(0));
    assert_eq!(rev_x("ba", ALPHABET), Ok(54));
    assert_eq!(rev_x("aQu", ALPHABET), Ok(39 * 54 + 19));
    assert_eq!(rev_x("", ALPHABET), Ok(0));
}

#[test]
fn round_trip_values() {
    let samples: [i32; 10] = [0, 1, 53, 54, 55, 100, 2024, 157463, 1000000, i32::MAX];
    for &n in samples.iter() {
        assert_eq!(rev_x(&encode(n), ALPHABET), Ok(n));
    }
}

#[test]
fn decode_invalid_character() {
    assert_eq!(rev_x("a!b", ALPHABET), Err(TagError::InvalidCharacterError));
    assert_eq!(rev_x("l", ALPHABET), Err(TagError::InvalidCharacterError));
    assert_eq!(rev_x("O0", ALPHABET), Err(TagError::InvalidCharacterError));
}

#[test]
fn decode_value_overflow() {
    // six maximal digits denote 54^6 - 1, which exceeds i32::MAX
    assert_eq!(rev_x("999999", ALPHABET), Err(TagError::ValueOverflowError));
}

#[test]
fn known_vector_week_39() {
    // Wednesday, September 25, 2024, 13:30 UTC: year offset 0, ISO week
    // 39, tick 19
    let c = decompose(ts(2024, 9, 25, 13, 30, 0)).unwrap();
    assert_eq!((c.year, c.week, c.tick), (0, 39, 19));
    let mut buf = TagBuf::new();
    to_datetag_array(&mut buf, ts(2024, 9, 25, 13, 30, 0)).unwrap();
    assert_eq!(buf.as_ref(), b"aQu");
}

#[test]
fn epoch_start_tag() {
    // Monday, January 1, 2024 is ISO week 1, tick 0
    let c = decompose(ts(2024, 1, 1, 0, 0, 0)).unwrap();
    assert_eq!((c.year, c.week, c.tick), (0, 1, 0));
    let mut buf = TagBuf::new();
    to_datetag_array(&mut buf, ts(2024, 1, 1, 0, 0, 0)).unwrap();
    assert_eq!(buf.as_ref(), b"aba");
}

#[test]
fn january_boundary_week_zero() {
    // January 1, 2027 falls in ISO week 53 of 2026: the tag folds it to 0
    let c = decompose(ts(2027, 1, 1, 0, 0, 0)).unwrap();
    assert_eq!(c.week, 0);
    // January 1, 2028 falls in ISO week 52 of 2027: folded to 0 as well
    let c = decompose(ts(2028, 1, 1, 12, 0, 0)).unwrap();
    assert_eq!(c.week, 0);
}

#[test]
fn december_boundary_week_53() {
    // December 30, 2024 lies in ISO week 1 of 2025; a week earlier is
    // ISO week 52, so the tag week becomes 53
    let c = decompose(ts(2024, 12, 30, 0, 0, 0)).unwrap();
    assert_eq!(c.week, 53);
    let c = decompose(ts(2024, 12, 31, 23, 59, 59)).unwrap();
    assert_eq!(c.week, 53);
}

#[test]
fn tick_bounds_hold() {
    // the largest possible tick: Sunday 23:59:59
    let c = decompose(ts(2024, 9, 29, 23, 59, 59)).unwrap();
    assert_eq!(c.tick, 51);
    for day in 1..=30 {
        for hour in [0u8, 7, 13, 23] {
            let c = decompose(ts(2025, 6, day, hour, 59, 59)).unwrap();
            assert!(c.tick <= 51);
        }
    }
}

#[test]
fn buffer_overflow_partial_write() {
    // year 2078 has offset 54, a two-digit year segment: four digits in
    // all cannot fit the three-byte buffer
    let date = ts(2078, 1, 10, 0, 0, 0);
    let c = decompose(date).unwrap();
    assert_eq!(c.year, 54);
    let mut buf = TagBuf::new();
    assert_eq!(
        to_datetag_array(&mut buf, date),
        Err(TagError::BufferOverflowError)
    );
    // the three digits that fit were written: "ba" for the year, then
    // the week digit; nothing beyond
    let expected = [b'b', b'a', BASE54[c.week as usize]];
    assert_eq!(buf.as_ref(), &expected);
}

#[test]
fn growable_sink_never_overflows() {
    let date = ts(2078, 1, 10, 0, 0, 0);
    let c = decompose(date).unwrap();
    let mut vb = VecBuf::new();
    to_datetag_buf(&mut vb, date).unwrap();
    let tag = String::from_utf8(vb.bytes().clone()).unwrap();
    assert_eq!(
        tag,
        format!(
            "{}{}{}",
            encode(c.year as i32),
            encode(c.week as i32),
            encode(c.tick as i32)
        )
    );
}

#[test]
fn rejects_invalid_dates() {
    assert_eq!(
        decompose(ts(2024, 2, 30, 0, 0, 0)),
        Err(TagError::DateConversionError)
    );
    assert_eq!(
        decompose(ts(2024, 13, 1, 0, 0, 0)),
        Err(TagError::DateConversionError)
    );
    assert_eq!(
        decompose(ts(2024, 0, 1, 0, 0, 0)),
        Err(TagError::DateConversionError)
    );
    assert_eq!(
        decompose(ts(2024, 1, 1, 24, 0, 0)),
        Err(TagError::DateConversionError)
    );
    assert_eq!(
        decompose(ts(2024, 1, 1, 0, 60, 0)),
        Err(TagError::DateConversionError)
    );
    // leap-year rules
    assert!(decompose(ts(2024, 2, 29, 0, 0, 0)).is_ok());
    assert_eq!(
        decompose(ts(2025, 2, 29, 0, 0, 0)),
        Err(TagError::DateConversionError)
    );
    assert_eq!(
        decompose(ts(2100, 2, 29, 0, 0, 0)),
        Err(TagError::DateConversionError)
    );
}

#[test]
fn rejects_pre_epoch_dates() {
    // timestamps before the epoch are rejected rather than encoded with
    // a negative year offset
    assert_eq!(
        decompose(ts(2023, 12, 31, 23, 59, 59)),
        Err(TagError::DateConversionError)
    );
    assert_eq!(
        decompose(ts(1999, 6, 15, 12, 0, 0)),
        Err(TagError::DateConversionError)
    );
}

#[test]
fn monotonic_components_within_year() {
    // away from the year-boundary edge cases, later instants give
    // lexicographically larger (week, tick) components
    let samples = [
        ts(2025, 2, 3, 0, 0, 0),
        ts(2025, 2, 3, 9, 30, 0),
        ts(2025, 3, 15, 12, 0, 0),
        ts(2025, 7, 1, 6, 45, 5),
        ts(2025, 11, 28, 23, 59, 59),
    ];
    let mut prev: Option<(u32, u32)> = None;
    for t in samples.iter() {
        let c = decompose(*t).unwrap();
        if let Some(p) = prev {
            assert!(p <= (c.week, c.tick));
        }
        prev = Some((c.week, c.tick));
    }
}

#[test]
fn datetag_string_matches_array() {
    let date = ts(2024, 9, 25, 13, 30, 0);
    assert_eq!(to_datetag_string(date).unwrap(), "aQu");
    assert_eq!(
        to_datetag_string(ts(2023, 1, 1, 0, 0, 0)),
        Err(TagError::DateConversionError)
    );
    // a date whose year segment needs two digits still renders fully
    let c = decompose(ts(2078, 1, 10, 0, 0, 0)).unwrap();
    let tag = to_datetag_string(ts(2078, 1, 10, 0, 0, 0)).unwrap();
    assert_eq!(tag.len(), 4);
    assert_eq!(
        tag,
        format!(
            "{}{}{}",
            encode(c.year as i32),
            encode(c.week as i32),
            encode(c.tick as i32)
        )
    );
}

#[test]
fn to_tag_shape_and_prefix() {
    let date = ts(2024, 9, 25, 13, 30, 0);
    let tag = to_tag(date).unwrap();
    let (prefix, suffix) = tag.split_once('-').unwrap();
    assert_eq!(prefix, "aQu");
    assert!(!suffix.is_empty() && suffix.len() <= 3);
    for ch in suffix.bytes() {
        assert!(BASE54.contains(&ch));
    }
    // the suffix decodes to a value below the documented range
    let n = rev_x(suffix, ALPHABET).unwrap();
    assert!(0 <= n && (n as u32) < RAND_RANGE);
}

#[test]
fn to_tag_rejects_bad_dates() {
    assert_eq!(
        to_tag(ts(2023, 1, 1, 0, 0, 0)),
        Err(TagError::DateConversionError)
    );
    assert_eq!(
        to_tag(ts(2024, 4, 31, 0, 0, 0)),
        Err(TagError::DateConversionError)
    );
}

#[test]
fn tag_buf_accessors() {
    let mut buf = TagBuf::new();
    assert_eq!(buf.as_ref(), &[0u8; 3]);
    buf.as_mut()[1] = 7;
    assert_eq!(buf.as_ref(), &[0, 7, 0]);
    let d = TagBuf::default();
    assert_eq!(d.as_ref(), &[0u8; 3]);
}

#[test]
fn fixed_sink_writes_in_place() {
    let mut sink = StrBuf {
        offset: 0,
        buf: TagBuf([9, 9, 9]),
    };
    // each write changes the addressed byte alone and advances the offset
    assert_eq!(sink.write_byte(1), Ok(()));
    assert_eq!((sink.offset, sink.buf.0), (1, [1, 9, 9]));
    assert_eq!(sink.write_byte(2), Ok(()));
    assert_eq!(sink.write_byte(3), Ok(()));
    assert_eq!((sink.offset, sink.buf.0), (3, [1, 2, 3]));
    // a fourth byte is refused and nothing moves
    assert_eq!(sink.write_byte(4), Err(TagError::BufferOverflowError));
    assert_eq!((sink.offset, sink.buf.0), (3, [1, 2, 3]));
}

#[test]
fn error_messages() {
    assert_eq!(
        TagError::BufferOverflowError.message(),
        "Buffer overflow error"
    );
    assert_eq!(
        TagError::DateConversionError.message(),
        "Date conversion error"
    );
    assert_eq!(
        TagError::InvalidCharacterError.message(),
        "Invalid character error"
    );
    assert_eq!(TagError::ValueOverflowError.message(), "Value overflow error");
}

#[test]
fn matches_reference_calendar() {
    // sweep several years and hold the decomposition to the calendar
    // crate: ISO week with both corrections, weekday, and the tick from
    // the seconds since the week's Monday midnight
    let mut date = chrono::NaiveDate::from_ymd_opt(2024, 1, 1).unwrap();
    let end = chrono::NaiveDate::from_ymd_opt(2030, 12, 31).unwrap();
    while date <= end {
        let dt = date.and_hms_opt(11, 17, 43).unwrap();
        let c = decompose(ts(
            chrono::Datelike::year(&date),
            chrono::Datelike::month(&date) as u8,
            chrono::Datelike::day(&date) as u8,
            11,
            17,
            43,
        ))
        .unwrap();
        let month = chrono::Datelike::month(&date);
        let mut week = chrono::Datelike::iso_week(&date).week();
        if month == 1 && week > 51 {
            week = 0;
        }
        if month == 12 && week < 2 {
            let previous = dt - chrono::Duration::weeks(1);
            week = chrono::Datelike::iso_week(&previous).week() + 1;
        }
        let day = chrono::Datelike::weekday(&date).num_days_from_monday() as i64;
        let eve = date.and_hms_opt(0, 0, 0).unwrap() - chrono::Duration::days(day);
        let delta = dt - eve;
        let tick = (delta.num_seconds() / 11631) as u32;
        assert_eq!((c.year, c.week, c.tick), (
            (chrono::Datelike::year(&date) - EPOCH_YEAR) as u32,
            week,
            tick
        ));
        date = date.succ_opt().unwrap();
    }
}
