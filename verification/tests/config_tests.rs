/// Reads the rules in `src`, with each number text read as an `f64`.
fn parse_rules(src: &str) -> Result<Vec<ratetrace::config::RateLimit>, ratetrace::diagnostics::Diagnostic> {
    ratetrace::config::parse_rules(src, &number_table(src))
}

fn number_table(src: &str) -> Vec<(String, ratetrace::config::NumberValue)> {
    ratetrace::config::number_texts(src)
        .into_iter()
        .map(|t| {
            let value: f64 = t.parse().unwrap();
            let whole = if value.fract() != 0.0 || value < 0.0 || value > u32::MAX as f64 {
                None
            } else {
                Some(value as u32)
            };
            let shown = format!("{value}");
            (t, ratetrace::config::NumberValue { whole, shown })
        })
        .collect()
}

const LOGIN_RULES: &str = "# examples/login.rl
rule login {
    rate = 5/sec
    burst = 10
}

rule password_reset {
    rate = 3/min
    burst = 1
}

rule bulk_export {
    rate = 100/hour
    burst = 20
}
";

#[test]
fn parses_example_rules() {
    let rules = parse_rules(LOGIN_RULES).unwrap();
    assert_eq!(rules.len(), 3);
    assert_eq!(rules[0].name, "login");
    assert_eq!(rules[0].count, 5);
    assert_eq!(rules[0].period_secs, 1);
    assert_eq!(rules[0].burst, 10);
    assert_eq!(rules[1].name, "password_reset");
    assert_eq!(rules[1].count, 3);
    assert_eq!(rules[1].period_secs, 60);
    assert_eq!(rules[1].burst, 1);
    assert_eq!(rules[2].name, "bulk_export");
    assert_eq!(rules[2].count, 100);
    assert_eq!(rules[2].period_secs, 3600);
    assert_eq!(rules[2].burst, 20);
    assert_eq!(rules[0].name_offset, LOGIN_RULES.find("login {").unwrap());
}

#[test]
fn empty_file_has_no_rules() {
    assert_eq!(parse_rules("").unwrap().len(), 0);
    assert_eq!(parse_rules("  # nothing here\n\n").unwrap().len(), 0);
}

#[test]
fn short_unit_names_and_defaults() {
    let rules = parse_rules("rule a { rate = 2/s } rule b { rate = 2/m } rule c { rate = 2/h burst = 007 }")
        .unwrap();
    assert_eq!(rules[0].period_secs, 1);
    assert_eq!(rules[0].burst, 0);
    assert_eq!(rules[1].period_secs, 60);
    assert_eq!(rules[2].period_secs, 3600);
    assert_eq!(rules[2].burst, 7);
}

#[test]
fn later_fields_override_earlier_ones() {
    let rules = parse_rules("rule a { rate = 2/sec burst = 1 rate = 3/min burst = 4 }").unwrap();
    assert_eq!(rules[0].count, 3);
    assert_eq!(rules[0].period_secs, 60);
    assert_eq!(rules[0].burst, 4);
}

#[test]
fn whole_numbers_with_zero_fractions_are_accepted() {
    let rules = parse_rules("rule a { rate = 5.00/sec burst = 2. }").unwrap();
    assert_eq!(rules[0].count, 5);
    assert_eq!(rules[0].burst, 2);
    let rules = parse_rules("rule a { rate = 4294967295/sec }").unwrap();
    assert_eq!(rules[0].count, 4294967295);
}

#[test]
fn unknown_time_unit() {
    let src = "rule login {\n    rate = 5/wk\n    burst = 10\n}\n";
    let err = parse_rules(src).unwrap_err();
    assert_eq!(err.message, "unknown time unit 'wk'");
    assert_eq!(err.offset, src.find("wk").unwrap());
    assert_eq!(err.len, 2);
    assert_eq!(err.help.as_deref(), Some("expected one of: sec, min, hour"));
}

#[test]
fn duplicate_rule_names() {
    let src = "rule a { rate = 1/sec }\nrule a { rate = 2/sec }";
    let err = parse_rules(src).unwrap_err();
    assert_eq!(err.message, "rule 'a' is defined more than once");
    assert_eq!(err.offset, 29);
    assert_eq!(err.len, 1);
    assert_eq!(err.help.as_deref(), Some("rule names must be unique within a file"));
}

#[test]
fn missing_rate_field() {
    let err = parse_rules("rule slow { burst = 3 }").unwrap_err();
    assert_eq!(err.message, "rule 'slow' is missing a 'rate' field");
    assert_eq!(err.offset, 5);
    assert_eq!(err.len, 4);
    assert_eq!(err.help.as_deref(), Some("add a line like 'rate = 5/sec'"));
}

#[test]
fn unterminated_rule() {
    let err = parse_rules("rule a {\n rate = 1/sec\n").unwrap_err();
    assert_eq!(err.message, "unexpected end of file while parsing rule");
    assert_eq!(err.offset, 23);
    assert_eq!(err.len, 1);
    assert_eq!(err.help.as_deref(), Some("rule 'a' is missing a closing '}'"));
}

#[test]
fn unknown_field() {
    let err = parse_rules("rule a { limit = 3 }").unwrap_err();
    assert_eq!(err.message, "unknown field 'limit' in rule 'a'");
    assert_eq!(err.offset, 9);
    assert_eq!(err.len, 5);
    assert_eq!(err.help.as_deref(), Some("expected 'rate' or 'burst'"));
}

#[test]
fn fractional_and_too_large_counts() {
    let err = parse_rules("rule a { rate = 1.5/sec }").unwrap_err();
    assert_eq!(err.message, "request count must be a whole number");
    assert_eq!(err.offset, 16);
    assert_eq!(err.len, 3);
    assert_eq!(err.help.as_deref(), Some("fractional or negative values are not supported"));
    let err = parse_rules("rule a { rate = 1/sec burst = 4294967296 }").unwrap_err();
    assert_eq!(err.message, "burst size must be a whole number");
    assert_eq!(err.offset, 30);
    assert_eq!(err.len, 10);
}

#[test]
fn unit_is_checked_before_count() {
    let err = parse_rules("rule a { rate = 1.5/wk }").unwrap_err();
    assert_eq!(err.message, "unknown time unit 'wk'");
}

#[test]
fn unexpected_tokens() {
    let err = parse_rules("rulez a { }").unwrap_err();
    assert_eq!(err.message, "expected keyword 'rule', found identifier 'rulez'");
    assert_eq!((err.offset, err.len), (0, 5));
    let err = parse_rules("rule 5 { }").unwrap_err();
    assert_eq!(err.message, "expected a rule name, found number '5'");
    let err = parse_rules("rule a = ").unwrap_err();
    assert_eq!(err.message, "expected '{', found '='");
    let err = parse_rules("rule a { rate 5 }").unwrap_err();
    assert_eq!(err.message, "expected '=', found number '5'");
    let err = parse_rules("rule a { rate = sec }").unwrap_err();
    assert_eq!(err.message, "expected a request count, found identifier 'sec'");
    let err = parse_rules("rule a { rate = 5 sec }").unwrap_err();
    assert_eq!(err.message, "expected '/', found identifier 'sec'");
    let err = parse_rules("rule a { rate = 5/ }").unwrap_err();
    assert_eq!(err.message, "expected a time unit (sec, min, or hour), found '}'");
    let err = parse_rules("rule a { burst = / }").unwrap_err();
    assert_eq!(err.message, "expected a burst size, found '/'");
    let err = parse_rules("rule a { = }").unwrap_err();
    assert_eq!(err.message, "expected a field name ('rate' or 'burst'), found '='");
    let err = parse_rules("rule").unwrap_err();
    assert_eq!(err.message, "expected a rule name, found end of file");
    assert_eq!((err.offset, err.len), (4, 1));
}

#[test]
fn numbers_are_shown_in_shortest_form() {
    let err = parse_rules("rule 007.500 {").unwrap_err();
    assert_eq!(err.message, "expected a rule name, found number '7.5'");
    assert_eq!(err.len, 7);
    let err = parse_rules("rule 0.000 {").unwrap_err();
    assert_eq!(err.message, "expected a rule name, found number '0'");
    let err = parse_rules("rule 12. {").unwrap_err();
    assert_eq!(err.message, "expected a rule name, found number '12'");
}

#[test]
fn unexpected_characters() {
    let err = parse_rules("rule a { rate = 5/sec } $").unwrap_err();
    assert_eq!(err.message, "unexpected character '$'");
    assert_eq!((err.offset, err.len), (24, 1));
    let err = parse_rules("rule a { rate = -5/sec }").unwrap_err();
    assert_eq!(err.message, "unexpected character '-'");
    // a byte that starts no token is shown as the character of that value
    let err = parse_rules("rule é").unwrap_err();
    assert_eq!(err.message, "unexpected character '\u{c3}'");
    assert_eq!(err.offset, 5);
}

#[test]
fn comments_and_blanks_between_tokens() {
    let rules = parse_rules("rule a# c\n{\trate=1/sec# x\r\n}").unwrap();
    assert_eq!(rules.len(), 1);
    assert_eq!(rules[0].count, 1);
}
