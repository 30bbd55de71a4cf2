use ratetrace::diagnostics::{Diagnostic, Secondary, SourceMap};

/// Reads the rules in `src`, with each number text read as an `f64`.
fn parse_rules(src: &str) -> Result<Vec<ratetrace::config::RateLimit>, ratetrace::diagnostics::Diagnostic> {
    ratetrace::config::parse_rules(src, &number_table(src))
}

fn number_table(src: &str) -> Vec<(String, ratetrace::config::NumberValue)> {
    ratetrace::config::number_texts(src)
        .into_iter()
        .map(|t| {
            let value: f64 = t.parse().unwrap();
            let whole = if value.fract() != 0.0 || value < 0.0 || value > u32::MAX as f64 {
                None
            } else {
                Some(value as u32)
            };
            let shown = format!("{value}");
            (t, ratetrace::config::NumberValue { whole, shown })
        })
        .collect()
}


#[test]
fn renders_readme_example() {
    let src = "rule login {\n    rate = 5/wk\n    burst = 10\n}\n";
    let err = parse_rules(src).unwrap_err();
    let map = SourceMap::new(src);
    let expected = "error: unknown time unit 'wk'\n --> examples/broken.rl:2:14\n  |\n2 |     rate = 5/wk\n  |              ^^\n  = help: expected one of: sec, min, hour\n";
    assert_eq!(err.render("examples/broken.rl", &map), expected);
}

#[test]
fn line_and_column_of_offsets() {
    let map = SourceMap::new("ab\ncd\n\nef");
    assert_eq!(map.line_col(0), (1, 1));
    assert_eq!(map.line_col(1), (1, 2));
    assert_eq!(map.line_col(2), (1, 3));
    assert_eq!(map.line_col(3), (2, 1));
    assert_eq!(map.line_col(6), (3, 1));
    assert_eq!(map.line_col(7), (4, 1));
    assert_eq!(map.line_col(9), (4, 3));
    assert_eq!(map.line_col(20), (4, 14));
}

#[test]
fn line_text_drops_line_breaks() {
    let map = SourceMap::new("one\r\ntwo\n\nthree");
    assert_eq!(map.line_text(1), "one");
    assert_eq!(map.line_text(2), "two");
    assert_eq!(map.line_text(3), "");
    assert_eq!(map.line_text(4), "three");
    let map = SourceMap::new("a\r\r\n");
    assert_eq!(map.line_text(1), "a");
    assert_eq!(map.line_text(2), "");
}

#[test]
fn renders_secondary_location_and_wide_gutter() {
    let mut src = String::new();
    for _ in 0..9 {
        src.push('\n');
    }
    src.push_str("rule x { }\n");
    let d = Diagnostic {
        message: "boom".to_string(),
        offset: 14,
        len: 0,
        help: Some("try again".to_string()),
        secondary: Some(Secondary { message: "first seen here".to_string(), offset: 0, len: 3 }),
    };
    let map = SourceMap::new(&src);
    let expected = "error: boom\n  --> f.rl:10:6\n   |\n10 | rule x { }\n   |      ^\n   = help: try again\nnote: first seen here\n --> f.rl:1:1\n  |\n1 | \n  | ^^^\n";
    assert_eq!(d.render("f.rl", &map), expected);
}

#[test]
fn columns_count_bytes() {
    let src = "é = 1\n";
    let map = SourceMap::new(src);
    assert_eq!(map.line_col(3), (1, 4));
    let d = Diagnostic { message: "m".to_string(), offset: 3, len: 1, help: None, secondary: None };
    assert_eq!(d.render("f", &map), "error: m\n --> f:1:4\n  |\n1 | é = 1\n  |    ^\n");
}
