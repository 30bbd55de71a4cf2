# ratetrace

Rate limit rules, request traces, and the token buckets that decide which
request of a trace gets throttled — written in Verus, with the parsing, the
bucket arithmetic and the trace walk proved against their specifications.

- `src/text.rs` — decimal and padding helpers for building messages.
- `src/diagnostics.rs` — byte offsets to line/column, and rustc-style
  error snippets.
- `src/config.rs` — the rules format: lexer, parser and their grammar as
  spec functions.
- `src/trace.rs` — the trace format, one request per line.
- `src/simulate.rs` — the token bucket, with amounts of tokens held exactly
  in integer units.
- `src/report.rs` — rule summaries and the walk of a trace through one
  bucket per rule.
- `app/main.rs` — the `check` and `trace` commands: file reading,
  printing, and the floating-point reading of number and timestamp texts,
  which it hands to the parsers as tables.

Among the proved properties: parsed rules have distinct names, stand at
their offsets in file order, and have a period of a second, a minute or an
hour; errors point into the file; the lexer skips only blanks and comments;
a parsed trace is in order of time, each request on its own line with its
rule name as the line's first token; a bucket never holds more than its
capacity and a fresh one admits exactly `count + burst` simultaneous
requests; a trace naming an undefined rule is rejected before any request
runs, and otherwise each rule's bucket decides only on the requests that
name that rule; line/column numbers point back at their offsets.
