use beegfs_exporter::{chars_of, extract, ExtractError, ParsedSample};

fn sample(w: u64, r: u64, q: u64, l: u64, b: u64) -> ParsedSample {
    ParsedSample {
        bytes_written: w,
        bytes_read: r,
        request_count: q,
        queue_length: l,
        busy_percent: b,
    }
}

#[test]
fn extract_reads_padded_line() {
    assert_eq!(
        extract("  3   100   200   5   7   42"),
        Ok(Some(sample(100, 200, 5, 7, 42)))
    );
}

#[test]
fn extract_ignores_trailing_newline() {
    assert_eq!(
        extract("  3   100   200   5   7   42\n"),
        Ok(Some(sample(100, 200, 5, 7, 42)))
    );
}

#[test]
fn extract_accepts_any_unicode_whitespace() {
    assert_eq!(
        extract("\t1\t2 \t3  4\u{3000}5\u{a0}6"),
        Ok(Some(sample(2, 3, 4, 5, 6)))
    );
}

#[test]
fn extract_reads_line_starting_with_number() {
    assert_eq!(
        extract("3 100 200   5 7 42"),
        Ok(Some(sample(100, 200, 5, 7, 42)))
    );
    assert_eq!(extract("3 100 200 5 7 42"), Ok(Some(sample(100, 200, 5, 7, 42))));
}

#[test]
fn extract_first_number_must_stand_alone() {
    assert_eq!(extract("x12 1 2 3 4 5"), Ok(None));
    assert_eq!(extract("x12 1 2 3 4 5 6"), Ok(Some(sample(2, 3, 4, 5, 6))));
}

#[test]
fn extract_rejects_one_long_number() {
    assert_eq!(extract(" 123456"), Ok(None));
}

#[test]
fn extract_rejects_garbage() {
    assert_eq!(extract("garbage line"), Ok(None));
}

#[test]
fn extract_rejects_empty_line() {
    assert_eq!(extract(""), Ok(None));
}

#[test]
fn extract_rejects_header() {
    assert_eq!(extract("  nodeID  write  read  reqs  qlen  bsy"), Ok(None));
    assert_eq!(extract("=========================="), Ok(None));
}

#[test]
fn extract_rejects_five_numbers() {
    assert_eq!(extract(" 1 2 3 4 5"), Ok(None));
}

#[test]
fn extract_takes_leftmost_six() {
    assert_eq!(extract(" 1 2 3 4 5 6 7"), Ok(Some(sample(2, 3, 4, 5, 6))));
}

#[test]
fn extract_skips_text_before_numbers() {
    assert_eq!(extract("time: 1 2 3 4 5 6"), Ok(Some(sample(2, 3, 4, 5, 6))));
}

#[test]
fn extract_allows_text_after_last_number() {
    assert_eq!(extract("  1 2 3 4 5 6abc"), Ok(Some(sample(2, 3, 4, 5, 6))));
}

#[test]
fn extract_needs_six_in_a_row() {
    assert_eq!(extract(" 1 2 x 3 4 5 6 7"), Ok(None));
    assert_eq!(extract(" 1 2x 3 4 5 6 7"), Ok(None));
    assert_eq!(
        extract(" 1 2x 3 4 5 6 7 8"),
        Ok(Some(sample(4, 5, 6, 7, 8)))
    );
}

#[test]
fn extract_reads_multi_digit_numbers() {
    assert_eq!(
        extract(" 12 1234567 89 0 007 100"),
        Ok(Some(sample(1234567, 89, 0, 7, 100)))
    );
}

#[test]
fn extract_reads_largest_field() {
    assert_eq!(
        extract(" 1 18446744073709551615 2 3 4 5"),
        Ok(Some(sample(u64::MAX, 2, 3, 4, 5)))
    );
}

#[test]
fn extract_reports_field_out_of_range() {
    assert_eq!(
        extract(" 1 18446744073709551616 2 3 4 5"),
        Err(ExtractError::FieldOutOfRange)
    );
}

#[test]
fn extract_ignores_size_of_first_number() {
    assert_eq!(
        extract(" 99999999999999999999999 1 2 3 4 5"),
        Ok(Some(sample(1, 2, 3, 4, 5)))
    );
}

#[test]
fn chars_of_keeps_characters() {
    assert_eq!(chars_of("a\u{3000}b"), vec!['a', '\u{3000}', 'b']);
    assert_eq!(chars_of(""), Vec::<char>::new());
}
