use blf_asc::calendar::{systemtime_to_timestamp, timestamp_to_systemtime};
use blf_asc::Timestamp;

fn at(millis: i64) -> Option<Timestamp> {
    Some(Timestamp {
        bits: (millis as f64 / 1000.0).to_bits(),
        seconds: millis.div_euclid(1000),
        millis,
        nanos: (millis.rem_euclid(1000) * 1_000_000) as u32,
    })
}

#[test]
fn moments_as_header_numbers() {
    // Saturday, 9 March 2024, 16:00:00.123 UTC
    assert_eq!(
        timestamp_to_systemtime(at(1_710_000_000_123)),
        [2024, 3, 6, 9, 16, 0, 0, 123]
    );
    // Monday, 1 January 1990, the first moment that is recorded
    assert_eq!(timestamp_to_systemtime(at(631_152_000_000)), [1990, 1, 1, 1, 0, 0, 0, 0]);
    // Sunday, 29 February 2032
    assert_eq!(
        timestamp_to_systemtime(at(1_961_711_999_999)),
        [2032, 2, 0, 29, 23, 59, 59, 999]
    );
}

#[test]
fn moments_that_a_header_does_not_record() {
    assert_eq!(timestamp_to_systemtime(None), [0; 8]);
    assert_eq!(timestamp_to_systemtime(at(0)), [0; 8]);
    assert_eq!(timestamp_to_systemtime(at(631_151_999_000)), [0; 8]);
    assert_eq!(timestamp_to_systemtime(at(i64::MAX)), [0; 8]);
}

#[test]
fn a_moment_that_rounds_up_counts_from_its_whole_second() {
    let just_before = Timestamp { bits: 0, seconds: 631_151_999, millis: 631_152_000_000, nanos: 0 };
    assert_eq!(timestamp_to_systemtime(Some(just_before)), [0; 8]);
}

#[test]
fn header_numbers_as_moments() {
    assert_eq!(systemtime_to_timestamp([2024, 3, 6, 9, 16, 0, 0, 123]), 1_710_000_000_123);
    // the day of the week does not count
    assert_eq!(systemtime_to_timestamp([2024, 3, 0, 9, 16, 0, 0, 123]), 1_710_000_000_123);
    assert_eq!(systemtime_to_timestamp([1970, 1, 4, 1, 0, 0, 0, 0]), 0);
    assert_eq!(systemtime_to_timestamp([1969, 12, 3, 31, 23, 59, 59, 1]), -999);
    // more than a thousand milliseconds run into the next second
    assert_eq!(systemtime_to_timestamp([1970, 1, 4, 1, 0, 0, 1, 65_535]), 66_535);
}

#[test]
fn header_numbers_that_give_no_moment() {
    assert_eq!(systemtime_to_timestamp([0, 3, 6, 9, 16, 0, 0, 0]), 0);
    assert_eq!(systemtime_to_timestamp([2024, 0, 6, 9, 16, 0, 0, 0]), 0);
    assert_eq!(systemtime_to_timestamp([2024, 3, 6, 0, 16, 0, 0, 0]), 0);
    assert_eq!(systemtime_to_timestamp([2024, 13, 6, 9, 16, 0, 0, 0]), 0);
    assert_eq!(systemtime_to_timestamp([2023, 2, 6, 29, 16, 0, 0, 0]), 0);
    assert_eq!(systemtime_to_timestamp([2024, 3, 6, 9, 24, 0, 0, 0]), 0);
    assert_eq!(systemtime_to_timestamp([2024, 3, 6, 9, 16, 60, 0, 0]), 0);
    assert_eq!(systemtime_to_timestamp([2024, 3, 6, 9, 16, 0, 60, 0]), 0);
}

#[test]
fn recorded_moments_are_read_back_to_the_millisecond() {
    for millis in [631_152_000_000, 951_782_400_001, 1_710_000_000_123, 4_102_444_799_999, 253_402_300_800_500] {
        assert_eq!(systemtime_to_timestamp(timestamp_to_systemtime(at(millis))), millis);
    }
}
