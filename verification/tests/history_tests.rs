use typeracer::history::{parse_log, parse_record, render_log, render_record, Record};

#[test]
fn render_record_format() {
    let r = Record { time_s: 170, accuracy_milli: 950, wpm_milli: 12500, cpm_milli: 62000 };
    assert_eq!(render_record(&r), b"170 950 12500 62000\n".to_vec());
}

#[test]
fn log_round_trip() {
    let records = vec![
        Record { time_s: 1, accuracy_milli: 1000, wpm_milli: 60000, cpm_milli: 300000 },
        Record { time_s: 2, accuracy_milli: 0, wpm_milli: 0, cpm_milli: 0 },
        Record {
            time_s: u64::MAX,
            accuracy_milli: 999,
            wpm_milli: u64::MAX,
            cpm_milli: 123456789012345,
        },
    ];
    let content = render_log(&records);
    assert_eq!(parse_log(&content), Some(records));
}

#[test]
fn empty_log_reads_back_empty() {
    assert_eq!(parse_log(&Vec::new()), Some(vec![]));
}

#[test]
fn final_newline_is_optional() {
    let content = b"1 2 3 4\n5 6 7 8".to_vec();
    let records = parse_log(&content).unwrap();
    assert_eq!(records.len(), 2);
    assert_eq!(
        records[1],
        Record { time_s: 5, accuracy_milli: 6, wpm_milli: 7, cpm_milli: 8 }
    );
}

#[test]
fn non_numeric_field_fails() {
    assert_eq!(parse_log(&b"1 2 x 4\n".to_vec()), None);
}

#[test]
fn missing_field_fails() {
    assert_eq!(parse_log(&b"1 2 3\n".to_vec()), None);
}

#[test]
fn extra_field_fails() {
    assert_eq!(parse_log(&b"1 2 3 4 5\n".to_vec()), None);
}

#[test]
fn empty_line_fails() {
    assert_eq!(parse_log(&b"1 2 3 4\n\n".to_vec()), None);
}

#[test]
fn one_bad_line_spoils_the_log() {
    assert_eq!(parse_log(&b"1 2 3 4\nbad\n5 6 7 8\n".to_vec()), None);
}

#[test]
fn oversized_field_fails() {
    assert_eq!(parse_record(&b"99999999999999999999 1 2 3".to_vec()), None);
    assert_eq!(parse_record(&b"18446744073709551615 1 2 3".to_vec()).map(|r| r.time_s),
        Some(u64::MAX));
}
