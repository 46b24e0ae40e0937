use radar_monitor::timecode::{
    are_consecutive, consecutive_files, timecode_from_path, Timecode, TimecodeError,
};

fn tc(year: usize, month: usize, day: usize, hour: usize, min: usize) -> Timecode {
    Timecode { year, month, day, hour, min }
}

#[test]
fn parses_a_frame_name() {
    assert_eq!(
        timecode_from_path("IDR043.T.202401311254.png"),
        Ok(tc(2024, 1, 31, 12, 54))
    );
}

#[test]
fn parses_a_marked_frame_name() {
    assert_eq!(
        timecode_from_path("xIDR042.T.199912312359.png"),
        Ok(tc(1999, 12, 31, 23, 59))
    );
}

#[test]
fn parses_a_name_that_ends_with_the_stamp() {
    assert_eq!(timecode_from_path("a.b.000102030405"), Ok(tc(1, 2, 3, 4, 5)));
}

#[test]
fn ignores_what_follows_the_twelve_digits() {
    assert_eq!(
        timecode_from_path("IDR043.T.20240131125499zz.png"),
        Ok(tc(2024, 1, 31, 12, 54))
    );
}

#[test]
fn reads_only_the_third_segment() {
    assert_eq!(
        timecode_from_path("202401311254.T.202502011300.202603021406"),
        Ok(tc(2025, 2, 1, 13, 0))
    );
}

#[test]
fn rejects_a_name_without_a_third_segment() {
    assert_eq!(timecode_from_path("IDR043.png"), Err(TimecodeError::MissingSegment));
    assert_eq!(timecode_from_path("IDR043"), Err(TimecodeError::MissingSegment));
    assert_eq!(timecode_from_path(""), Err(TimecodeError::MissingSegment));
}

#[test]
fn rejects_a_short_stamp() {
    assert_eq!(timecode_from_path("IDR043.T.20240131125.png"), Err(TimecodeError::TooShort));
    assert_eq!(timecode_from_path("IDR043.T..png"), Err(TimecodeError::TooShort));
    assert_eq!(timecode_from_path("IDR043.T."), Err(TimecodeError::TooShort));
    assert_eq!(timecode_from_path("IDR043.background.png"), Err(TimecodeError::TooShort));
}

#[test]
fn rejects_a_stamp_that_is_not_numeric() {
    assert_eq!(timecode_from_path("IDR043.T.2024013112x4.png"), Err(TimecodeError::NotNumeric));
    assert_eq!(timecode_from_path("IDR043.T.+02401311254.png"), Err(TimecodeError::NotNumeric));
    assert_eq!(timecode_from_path("IDR043.T.20240131 254.png"), Err(TimecodeError::NotNumeric));
    assert_eq!(timecode_from_path("a.b.abcdefghijkl.png"), Err(TimecodeError::NotNumeric));
}

#[test]
fn counts_the_stamp_in_characters() {
    assert_eq!(
        timecode_from_path("IDR043.T.2024013112\u{e9}4.png"),
        Err(TimecodeError::NotNumeric)
    );
    assert_eq!(timecode_from_path("a.b.\u{e9}\u{e9}\u{e9}\u{e9}\u{e9}\u{e9}"), Err(TimecodeError::TooShort));
}

#[test]
fn six_minutes_later_is_consecutive() {
    assert_eq!(
        consecutive_files("IDR043.T.202401011200.png", "IDR043.T.202401011206.png"),
        Ok(true)
    );
}

#[test]
fn hour_rollover_is_consecutive() {
    assert_eq!(
        consecutive_files("IDR043.T.202401011254.png", "IDR043.T.202401011300.png"),
        Ok(true)
    );
}

#[test]
fn day_rollover_is_consecutive() {
    assert_eq!(
        consecutive_files("IDR043.T.202401012354.png", "IDR043.T.202401020000.png"),
        Ok(true)
    );
}

#[test]
fn thirty_minutes_later_is_a_gap() {
    assert_eq!(
        consecutive_files("IDR043.T.202401011200.png", "IDR043.T.202401011230.png"),
        Ok(false)
    );
}

#[test]
fn adjacency_reports_the_first_bad_name() {
    assert_eq!(
        consecutive_files("IDR043.png", "IDR043.T.2024.png"),
        Err(TimecodeError::MissingSegment)
    );
    assert_eq!(
        consecutive_files("IDR043.T.202401011200.png", "IDR043.T.2024.png"),
        Err(TimecodeError::TooShort)
    );
    assert_eq!(
        consecutive_files("IDR043.T.20240101120x.png", "IDR043.png"),
        Err(TimecodeError::NotNumeric)
    );
}

#[test]
fn adjacency_clauses_on_timecodes() {
    assert!(are_consecutive(&tc(2024, 1, 1, 12, 0), &tc(2024, 1, 1, 12, 6)));
    assert!(are_consecutive(&tc(2024, 1, 1, 12, 54), &tc(2024, 1, 1, 13, 0)));
    assert!(are_consecutive(&tc(2024, 1, 1, 12, 54), &tc(2024, 1, 1, 13, 6)));
    assert!(!are_consecutive(&tc(2024, 1, 1, 12, 54), &tc(2024, 1, 1, 13, 7)));
    assert!(are_consecutive(&tc(2024, 1, 1, 23, 54), &tc(2024, 1, 2, 0, 0)));
    assert!(are_consecutive(&tc(2024, 1, 31, 23, 54), &tc(2024, 2, 0, 7, 30)));
    assert!(are_consecutive(&tc(2024, 12, 31, 23, 54), &tc(2025, 0, 9, 9, 30)));
    assert!(!are_consecutive(&tc(2024, 1, 1, 12, 0), &tc(2024, 1, 1, 12, 30)));
    assert!(!are_consecutive(&tc(2024, 1, 1, 12, 0), &tc(2024, 1, 1, 12, 0)));
    assert!(!are_consecutive(&tc(2024, 1, 31, 23, 54), &tc(2024, 2, 1, 7, 30)));
}

#[test]
fn adjacency_ignores_fields_that_no_clause_names() {
    assert!(are_consecutive(&tc(2024, 1, 1, 12, 0), &tc(1999, 7, 9, 3, 6)));
    assert!(are_consecutive(&tc(2024, 1, 1, 12, 30), &tc(2030, 1, 1, 13, 2)));
}

#[test]
fn adjacency_at_the_largest_values() {
    let top = usize::MAX;
    assert!(!are_consecutive(&tc(top, top, top, top, top), &tc(0, 0, 0, 0, 0)));
    assert!(!are_consecutive(&tc(top, top, top, top, top), &tc(top, top, top, top, top)));
    assert!(are_consecutive(&tc(0, 0, 0, 0, top - 6), &tc(top, top, top, top, top)));
}
