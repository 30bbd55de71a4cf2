use ratetrace::report::{
    all_allowed_line, check_output, fmt_period, rule_summary, run_trace, throttled_line, TraceRun,
};
use ratetrace::diagnostics::SourceMap;

/// Reads the rules in `src`, with each number text read as an `f64`.
fn parse_rules(src: &str) -> Result<Vec<ratetrace::config::RateLimit>, ratetrace::diagnostics::Diagnostic> {
    ratetrace::config::parse_rules(src, &number_table(src))
}

fn number_table(src: &str) -> Vec<(String, ratetrace::config::NumberValue)> {
    ratetrace::config::number_texts(src)
        .into_iter()
        .map(|t| {
            let value: f64 = t.parse().unwrap();
            let whole = if value.fract() != 0.0 || value < 0.0 || value > u32::MAX as f64 {
                None
            } else {
                Some(value as u32)
            };
            let shown = format!("{value}");
            (t, ratetrace::config::NumberValue { whole, shown })
        })
        .collect()
}

/// Reads the trace in `src`, with each timestamp text read as an `f64` and
/// converted to a duration.
fn parse_trace(src: &str) -> Result<Vec<ratetrace::trace::TraceEntry>, ratetrace::diagnostics::Diagnostic> {
    ratetrace::trace::parse_trace(src, &time_table(src))
}

fn time_table(src: &str) -> Vec<(String, ratetrace::trace::TimeReading)> {
    ratetrace::trace::token_texts(src)
        .into_iter()
        .map(|t| {
            let r = match t.parse::<f64>() {
                Err(_) => ratetrace::trace::TimeReading::Invalid,
                Ok(s) if !s.is_finite() => ratetrace::trace::TimeReading::NonFinite,
                Ok(s) if s < 0.0 => ratetrace::trace::TimeReading::Negative,
                Ok(s) => match std::time::Duration::try_from_secs_f64(s) {
                    Ok(d) => ratetrace::trace::TimeReading::Nanos(d.as_nanos()),
                    Err(_) => ratetrace::trace::TimeReading::TooLarge,
                },
            };
            (t, r)
        })
        .collect()
}


const LOGIN_RULES: &str = "rule login {
    rate = 5/sec
    burst = 10
}

rule password_reset {
    rate = 3/min
    burst = 1
}

rule bulk_export {
    rate = 100/hour
    burst = 20
}
";

#[test]
fn summaries_match_readme() {
    let rules = parse_rules(LOGIN_RULES).unwrap();
    let lines: Vec<String> = rules.iter().map(rule_summary).collect();
    assert_eq!(
        lines,
        vec![
            "login: 5 per 1s (burst 10)",
            "password_reset: 3 per 60s (burst 1)",
            "bulk_export: 100 per 3600s (burst 20)",
        ]
    );
    assert_eq!(fmt_period(3600), "3600s");
}

#[test]
fn fifth_password_reset_is_throttled() {
    let rules = parse_rules(LOGIN_RULES).unwrap();
    let trace = "# examples/login.trace\npassword_reset 0\npassword_reset 0\npassword_reset 0\npassword_reset 0\npassword_reset 0\n";
    let entries = parse_trace(trace).unwrap();
    match run_trace(&rules, &entries, "examples/login.rl") {
        TraceRun::Throttled { index } => {
            assert_eq!(index, 4);
            assert_eq!(entries[index].line_start, trace.rfind("password_reset").unwrap());
            let map = SourceMap::new(trace);
            assert_eq!(map.line_col(entries[index].line_start).0, 6);
        }
        _ => panic!("expected a throttled request"),
    }
}

#[test]
fn rules_have_separate_buckets() {
    let rules = parse_rules("rule a { rate = 1/sec } rule b { rate = 1/sec }").unwrap();
    let entries = parse_trace("a 0\nb 0\nb 1\na 1\na 1.5\n").unwrap();
    match run_trace(&rules, &entries, "r.rl") {
        TraceRun::Throttled { index } => assert_eq!(index, 4),
        _ => panic!("expected a throttled request"),
    }
}

#[test]
fn all_allowed() {
    let rules = parse_rules(LOGIN_RULES).unwrap();
    let entries = parse_trace("login 0\nlogin 0.1\nbulk_export 5\n").unwrap();
    assert!(matches!(run_trace(&rules, &entries, "r.rl"), TraceRun::AllAllowed));
}

#[test]
fn undefined_rule_is_reported() {
    let rules = parse_rules(LOGIN_RULES).unwrap();
    let entries = parse_trace("login 0\nsearch 1\n").unwrap();
    match run_trace(&rules, &entries, "examples/login.rl") {
        TraceRun::UndefinedRule(d) => {
            assert_eq!(d.message, "trace references undefined rule 'search'");
            assert_eq!(d.offset, 8);
            assert_eq!(d.len, 6);
            assert_eq!(
                d.help.as_deref(),
                Some("define 'rule search { ... }' in examples/login.rl")
            );
        }
        _ => panic!("expected an undefined rule"),
    }
}

#[test]
fn undefined_rule_is_rejected_before_any_request_runs() {
    let rules_src = "rule a { rate = 1/sec }";
    let trace = "a 0\na 0\nb 0\n";
    let rules = parse_rules(rules_src).unwrap();
    let entries = parse_trace(trace).unwrap();
    match run_trace(&rules, &entries, "r.rl") {
        TraceRun::UndefinedRule(d) => {
            assert_eq!(d.message, "trace references undefined rule 'b'");
            assert_eq!((d.offset, d.len), (8, 1));
            let rendered = d.render("t.trace", &SourceMap::new(trace));
            assert!(rendered.starts_with("error: trace references undefined rule 'b'\n --> t.trace:3:1\n"));
        }
        _ => panic!("expected an undefined rule"),
    }
}

#[test]
fn check_prints_summaries_or_the_rendered_error() {
    assert_eq!(
        check_output(LOGIN_RULES, &number_table(LOGIN_RULES), "examples/login.rl").unwrap(),
        "login: 5 per 1s (burst 10)\npassword_reset: 3 per 60s (burst 1)\nbulk_export: 100 per 3600s (burst 20)\n"
    );
    assert_eq!(check_output("# nothing\n", &[], "empty.rl").unwrap(), "no rules defined in empty.rl\n");
    let broken = "rule login {\n    rate = 5/wk\n    burst = 10\n}\n";
    assert_eq!(
        check_output(broken, &number_table(broken), "examples/broken.rl").unwrap_err(),
        "error: unknown time unit 'wk'\n --> examples/broken.rl:2:14\n  |\n2 |     rate = 5/wk\n  |              ^^\n  = help: expected one of: sec, min, hour\n"
    );
}

#[test]
fn trace_report_lines() {
    let rules = parse_rules(LOGIN_RULES).unwrap();
    let trace = "# examples/login.trace\npassword_reset 0\npassword_reset 0\npassword_reset 0\npassword_reset 0\npassword_reset 0\n";
    let entries = parse_trace(trace).unwrap();
    let map = SourceMap::new(trace);
    match run_trace(&rules, &entries, "examples/login.rl") {
        TraceRun::Throttled { index } => assert_eq!(
            throttled_line(index, &entries[index], "0.000", "examples/login.trace", &map),
            "request 5 (password_reset @ 0.000s) is throttled -- examples/login.trace:6\n"
        ),
        _ => panic!("expected a throttled request"),
    }
    assert_eq!(all_allowed_line(3, "t.trace"), "all 3 requests in t.trace were allowed\n");
}
