use std::time::Duration;

/// Reads the trace in `src`, with each timestamp text read as an `f64` and
/// converted to a duration.
fn parse_trace(src: &str) -> Result<Vec<ratetrace::trace::TraceEntry>, ratetrace::diagnostics::Diagnostic> {
    ratetrace::trace::parse_trace(src, &time_table(src))
}

fn time_table(src: &str) -> Vec<(String, ratetrace::trace::TimeReading)> {
    ratetrace::trace::token_texts(src)
        .into_iter()
        .map(|t| {
            let r = match t.parse::<f64>() {
                Err(_) => ratetrace::trace::TimeReading::Invalid,
                Ok(s) if !s.is_finite() => ratetrace::trace::TimeReading::NonFinite,
                Ok(s) if s < 0.0 => ratetrace::trace::TimeReading::Negative,
                Ok(s) => match std::time::Duration::try_from_secs_f64(s) {
                    Ok(d) => ratetrace::trace::TimeReading::Nanos(d.as_nanos()),
                    Err(_) => ratetrace::trace::TimeReading::TooLarge,
                },
            };
            (t, r)
        })
        .collect()
}


#[test]
fn parses_simple_trace() {
    let entries = parse_trace("login 0\nlogin 0.5\n").unwrap();
    assert_eq!(entries.len(), 2);
    assert_eq!(entries[0].rule, "login");
    assert_eq!(entries[1].at_nanos, Duration::from_millis(500).as_nanos());
}

#[test]
fn skips_blank_lines_and_comments() {
    let entries = parse_trace("# a trace\n\nlogin 0\n\n# more\nlogin 1\n").unwrap();
    assert_eq!(entries.len(), 2);
}

#[test]
fn rejects_missing_timestamp() {
    let err = parse_trace("login\n").unwrap_err();
    assert!(err.message.contains("expected a timestamp"));
}

#[test]
fn rejects_out_of_order_timestamps() {
    let err = parse_trace("login 5\nlogin 1\n").unwrap_err();
    assert!(err.message.contains("non-decreasing"));
}

#[test]
fn rejects_trailing_garbage() {
    let err = parse_trace("login 1 extra\n").unwrap_err();
    assert!(err.message.contains("unexpected extra text"));
}

#[test]
fn entry_positions_are_byte_offsets() {
    let entries = parse_trace("# c\n  login   2.25\r\nsearch 3").unwrap();
    assert_eq!(entries.len(), 2);
    assert_eq!(entries[0].rule, "login");
    assert_eq!(entries[0].rule_offset, 6);
    assert_eq!(entries[0].rule_len, 5);
    assert_eq!(entries[0].line_start, 4);
    assert_eq!(entries[0].at_nanos, 2_250_000_000);
    assert_eq!(entries[1].rule, "search");
    assert_eq!(entries[1].line_start, 20);
    assert_eq!(entries[1].at_nanos, 3_000_000_000);
}

#[test]
fn empty_trace_has_no_entries() {
    assert_eq!(parse_trace("").unwrap().len(), 0);
    assert_eq!(parse_trace("\n\n   \n# only a comment").unwrap().len(), 0);
}

#[test]
fn comment_only_when_first_token_starts_with_hash() {
    let err = parse_trace("login 1 # note\n").unwrap_err();
    assert_eq!(err.message, "unexpected extra text after timestamp");
    assert_eq!(err.offset, 8);
    assert_eq!(err.len, 6);
    assert!(err.help.is_none());
    assert_eq!(parse_trace("#login 1 2 3\n").unwrap().len(), 0);
}

#[test]
fn missing_timestamp_points_at_rule() {
    let err = parse_trace("login 1\nsearch\n").unwrap_err();
    assert_eq!(err.message, "expected a timestamp after the rule name");
    assert_eq!(err.offset, 8);
    assert_eq!(err.len, 6);
    assert_eq!(err.help.as_deref(), Some("expected a line like 'login 1.5'"));
}

#[test]
fn invalid_timestamp_is_reported() {
    let err = parse_trace("login abc\n").unwrap_err();
    assert_eq!(err.message, "invalid timestamp 'abc'");
    assert_eq!(err.offset, 6);
    assert_eq!(err.len, 3);
    assert_eq!(
        err.help.as_deref(),
        Some("timestamps are seconds since the start of the trace, e.g. '1.5'")
    );
}

#[test]
fn negative_and_non_finite_timestamps_are_rejected() {
    for text in ["-1", "-0.5", "inf", "-Infinity", "NaN", "1e400"] {
        let src = format!("login {text}\n");
        let err = parse_trace(&src).unwrap_err();
        assert_eq!(err.message, format!("invalid timestamp '{text}'"));
        assert_eq!(err.help.as_deref(), Some("timestamps must be non-negative"));
    }
}

#[test]
fn float_forms_of_timestamps() {
    let cases: [(&str, u128); 10] = [
        ("1", 1_000_000_000),
        ("1.", 1_000_000_000),
        (".5", 500_000_000),
        ("+2", 2_000_000_000),
        ("15e-1", 1_500_000_000),
        ("1E3", 1_000_000_000_000),
        ("-0", 0),
        // read as the nearest float, then rounded to the nanosecond
        ("0.0000000005", 1),
        ("0.0000000015", 1),
        ("123456789.123456789", 123456789123456791),
    ];
    for (text, nanos) in cases {
        let src = format!("login {text}\n");
        let entries = parse_trace(&src).unwrap();
        assert_eq!(entries[0].at_nanos, nanos, "timestamp {text}");
    }
}

#[test]
fn malformed_numbers_are_invalid() {
    for text in [".", "1e", "1e+", "1.2.3", "0x10", "1_000", "+-1", "infinite"] {
        let src = format!("login {text}\n");
        let err = parse_trace(&src).unwrap_err();
        assert_eq!(err.message, format!("invalid timestamp '{text}'"), "timestamp {text}");
    }
}

#[test]
fn equal_timestamps_are_in_order() {
    let entries = parse_trace("a 1\nb 1\nc 1.0\n").unwrap();
    assert_eq!(entries.len(), 3);
}

#[test]
fn out_of_order_error_points_at_timestamp() {
    let err = parse_trace("login 5\nlogin 1\n").unwrap_err();
    assert_eq!(err.offset, 14);
    assert_eq!(err.len, 1);
    assert_eq!(
        err.help.as_deref(),
        Some("sort the trace by timestamp, or split it into per-rule traces")
    );
}

#[test]
fn too_large_timestamp_is_reported() {
    for text in ["1e30", "1e300", "18446744073709551615", "1.7976931348623157e308"] {
        let src = format!("login {text}\n");
        let err = parse_trace(&src).unwrap_err();
        assert_eq!(err.message, format!("invalid timestamp '{text}'"));
        assert_eq!((err.offset, err.len), (6, text.len()));
        assert_eq!(err.help.as_deref(), Some("timestamps must be less than 2^64 seconds"));
    }
    assert!(parse_trace("login 18446744073709549567\n").is_ok());
}

#[test]
fn float_range_limits_of_timestamps() {
    // a float reading rounds these to infinity
    for text in ["2e308", "1.797693134862315808e308"] {
        let err = parse_trace(&format!("login {text}\n")).unwrap_err();
        assert_eq!(err.help.as_deref(), Some("timestamps must be non-negative"), "timestamp {text}");
    }
    // and these negative values to -0.0, which counts as zero
    for text in ["-2e-324", "-2.4703282292062327e-324", "-1e-400"] {
        let entries = parse_trace(&format!("login {text}\n")).unwrap();
        assert_eq!(entries[0].at_nanos, 0, "timestamp {text}");
    }
    for text in ["-2.4703282292062328e-324", "-5e-324"] {
        // a float reading keeps these below zero
        let err = parse_trace(&format!("login {text}\n")).unwrap_err();
        assert_eq!(err.help.as_deref(), Some("timestamps must be non-negative"), "timestamp {text}");
    }
}

#[test]
fn non_ascii_rule_names_are_kept() {
    let entries = parse_trace("réservation 1\n").unwrap();
    assert_eq!(entries[0].rule, "réservation");
    assert_eq!(entries[0].rule_len, "réservation".len());
}

#[test]
fn times_are_compared_as_read() {
    // both read as 1 ns, so they are in order
    let entries = parse_trace("x 0.0000000015\nx 0.000000001\n").unwrap();
    assert_eq!(entries[0].at_nanos, entries[1].at_nanos);
}
