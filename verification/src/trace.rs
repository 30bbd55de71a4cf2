//! Parser for .trace files: one request per line, `<rule-name> <timestamp>`,
//! where the timestamp is seconds (fractional allowed) since the start of
//! the trace. Blank lines and '#' comments are ignored, matching the rules
//! format. Byte offsets are tracked the same way the rules parser does, so
//! bad trace lines get the same line/column error treatment as bad rule
//! files.
//!
//! A timestamp's value comes from a table of readings, one per timestamp
//! text, that the caller hands in: not a number, not finite, below zero,
//! too large for a duration, or a number of nanoseconds. `token_texts` lists
//! the texts the table needs, and `lemma_trace_reads_token_texts` shows that
//! nothing else of the table matters.

use vstd::prelude::*;
use vstd::utf8::*;
use vstd::string::StringSliceAdditionalSpecFns;
use vstd::string::StringExecFns;
use crate::config::text_of;
use crate::diagnostics::{Diagnostic, DiagnosticView, trim_end};
use crate::text::{lemma_boundary_after_ascii, lemma_boundary_at_ascii, lemma_str_valid, slice_str};
use crate::text::str_eq;

verus! {

/// ASCII whitespace: space, tab, line feed, form feed, carriage return.
pub open spec fn is_ascii_ws(c: u8) -> bool {
    c == 32 || c == 9 || c == 10 || c == 12 || c == 13
}

/// The first line feed at or after `p`, or the end.
pub open spec fn line_break(b: Seq<u8>, p: nat) -> nat
    decreases b.len() - p,
{
    if p >= b.len() || b[p as int] == 10 {
        p
    } else {
        line_break(b, p + 1)
    }
}

/// The end of the run of non-blank bytes from `p`, stopping at `e`.
pub open spec fn run_end(b: Seq<u8>, p: nat, e: nat) -> nat
    decreases e - p,
{
    if p >= e || p >= b.len() || is_ascii_ws(b[p as int]) {
        p
    } else {
        run_end(b, p + 1, e)
    }
}

/// The whitespace-separated tokens of the bytes `p..e`, as byte ranges.
pub open spec fn tokens_in(b: Seq<u8>, p: nat, e: nat) -> Seq<(nat, nat)>
    decreases e - p,
{
    if p >= e || p >= b.len() {
        Seq::empty()
    } else if is_ascii_ws(b[p as int]) {
        tokens_in(b, p + 1, e)
    } else {
        let r = run_end(b, p + 1, e);
        proof {
            lemma_run_end_ge(b, p + 1, e);
        }
        seq![(p, r)] + tokens_in(b, r, e)
    }
}

/// A trace entry as plain values: the rule name and where it stands, the
/// time of the request in nanoseconds, and where its line starts.
pub struct EntryView {
    pub rule: Seq<char>,
    pub rule_offset: nat,
    pub rule_len: nat,
    pub at: nat,
    pub line_start: nat,
}

/// What reading a trace comes to: its entries, or the first error.
pub enum TraceOutcome {
    Parsed(Seq<EntryView>),
    Failed(DiagnosticView),
}

/// What the text of a timestamp reads as, in seconds since the start of the
/// trace: not a number, not finite, below zero, too large for a duration,
/// or a number of nanoseconds.
pub enum Timestamp {
    Invalid,
    NonFinite,
    Negative,
    TooLarge,
    Nanos(nat),
}

/// A timestamp's reading, as the caller hands it in.
pub enum TimeReading {
    Invalid,
    NonFinite,
    Negative,
    TooLarge,
    Nanos(u128),
}

impl View for TimeReading {
    type V = Timestamp;

    open spec fn view(&self) -> Timestamp {
        match self {
            TimeReading::Invalid => Timestamp::Invalid,
            TimeReading::NonFinite => Timestamp::NonFinite,
            TimeReading::Negative => Timestamp::Negative,
            TimeReading::TooLarge => Timestamp::TooLarge,
            TimeReading::Nanos(n) => Timestamp::Nanos(*n as nat),
        }
    }
}

/// The reading of the timestamp text `text` in the table `times` of texts
/// and their readings: the first entry for that text, or `Invalid` when
/// there is none.
pub open spec fn reading_of(times: Seq<(Seq<char>, Timestamp)>, text: Seq<char>) -> Timestamp
    decreases times.len(),
{
    if times.len() == 0 {
        Timestamp::Invalid
    } else if times[0].0 == text {
        times[0].1
    } else {
        reading_of(times.drop_first(), text)
    }
}

/// A table of timestamp texts and their readings, as plain values.
pub open spec fn time_table(v: Seq<(String, TimeReading)>) -> Seq<(Seq<char>, Timestamp)> {
    v.map_values(|e: (String, TimeReading)| (e.0@, e.1@))
}

/// A diagnostic with no second location.
pub open spec fn trace_diag(message: Seq<char>, offset: nat, len: nat, help: Option<Seq<char>>) -> DiagnosticView {
    DiagnosticView { message, offset, len, help, secondary: None }
}

/// The error for the timestamp `b[ts..te]`.
pub open spec fn invalid_timestamp(b: Seq<u8>, ts: nat, te: nat, help: Seq<char>) -> DiagnosticView {
    trace_diag("invalid timestamp '"@ + text_of(b, ts, te) + "'"@, ts, (te - ts) as nat, Some(help))
}

/// Where the line that starts at `p` ends, line break excluded, and where
/// the next line starts.
pub open spec fn line_bounds(b: Seq<u8>, p: nat) -> (nat, nat) {
    let nl = line_break(b, p);
    let next: nat = if nl < b.len() { nl + 1 } else { b.len() };
    (p + trim_end(trim_end(b.subrange(p as int, next as int), 10), 13).len(), next)
}

/// What one line of a trace says.
pub enum LineStep {
    /// A blank or comment line.
    Skip,
    /// A request.
    Entry(EntryView),
    /// An error.
    Fail(DiagnosticView),
}

/// What the line that starts at `p` says, after a request at time `last`.
#[verifier::opaque]
pub open spec fn line_step(b: Seq<u8>, times: Seq<(Seq<char>, Timestamp)>, p: nat, last: Option<nat>) -> LineStep {
    let (e, next) = line_bounds(b, p);
    let toks = tokens_in(b, p, e);
    if toks.len() == 0 || b[toks[0].0 as int] == 35 {
        LineStep::Skip
    } else if toks.len() < 2 {
        LineStep::Fail(
            trace_diag(
                "expected a timestamp after the rule name"@,
                toks[0].0,
                (toks[0].1 - toks[0].0) as nat,
                Some("expected a line like 'login 1.5'"@),
            ),
        )
    } else if toks.len() > 2 {
        LineStep::Fail(
            trace_diag("unexpected extra text after timestamp"@, toks[2].0, (e - toks[2].0) as nat, None),
        )
    } else {
        let (rs, re) = toks[0];
        let (ts, te) = toks[1];
        match reading_of(times, text_of(b, ts, te)) {
            Timestamp::Invalid => LineStep::Fail(
                invalid_timestamp(
                    b,
                    ts,
                    te,
                    "timestamps are seconds since the start of the trace, e.g. '1.5'"@,
                ),
            ),
            Timestamp::NonFinite => LineStep::Fail(
                invalid_timestamp(b, ts, te, "timestamps must be non-negative"@),
            ),
            Timestamp::Negative => LineStep::Fail(
                invalid_timestamp(b, ts, te, "timestamps must be non-negative"@),
            ),
            Timestamp::TooLarge => LineStep::Fail(
                invalid_timestamp(b, ts, te, "timestamps must be less than 2^64 seconds"@),
            ),
            Timestamp::Nanos(at) => if last matches Some(prev) && at < prev {
                LineStep::Fail(
                    trace_diag(
                        "timestamps must be non-decreasing across the trace"@,
                        ts,
                        (te - ts) as nat,
                        Some("sort the trace by timestamp, or split it into per-rule traces"@),
                    ),
                )
            } else {
                LineStep::Entry(
                    EntryView {
                        rule: text_of(b, rs, re),
                        rule_offset: rs,
                        rule_len: (re - rs) as nat,
                        at,
                        line_start: p,
                    },
                )
            },
        }
    }
}

/// The trace from the line that starts at `p` on, after the entries `acc`;
/// `last` is the time of the last entry.
pub open spec fn trace_from(b: Seq<u8>, times: Seq<(Seq<char>, Timestamp)>, p: nat, last: Option<nat>, acc: Seq<EntryView>) -> TraceOutcome
    decreases b.len() - p,
{
    if p >= b.len() {
        TraceOutcome::Parsed(acc)
    } else {
        let next = line_bounds(b, p).1;
        proof {
            lemma_line_break(b, p);
        }
        match line_step(b, times, p, last) {
            LineStep::Skip => trace_from(b, times, next, last, acc),
            LineStep::Entry(entry) => trace_from(b, times, next, Some(entry.at), acc.push(entry)),
            LineStep::Fail(d) => TraceOutcome::Failed(d),
        }
    }
}

/// What reading the trace `b` comes to.
pub open spec fn trace_of(b: Seq<u8>, times: Seq<(Seq<char>, Timestamp)>) -> TraceOutcome {
    trace_from(b, times, 0, None, Seq::empty())
}

/// The texts of the whitespace-separated tokens of every line of `b` from
/// the line that starts at `p` on, line by line.
pub open spec fn line_token_texts(b: Seq<u8>, p: nat) -> Seq<Seq<char>>
    decreases b.len() - p,
{
    if p >= b.len() {
        Seq::empty()
    } else {
        let (e, next) = line_bounds(b, p);
        proof {
            lemma_line_break(b, p);
        }
        tokens_in(b, p, e).map_values(|t: (nat, nat)| text_of(b, t.0, t.1)) + line_token_texts(b, next)
    }
}

/// Two tables agree on the texts `texts`.
pub open spec fn agree_on(
    t1: Seq<(Seq<char>, Timestamp)>,
    t2: Seq<(Seq<char>, Timestamp)>,
    texts: Seq<Seq<char>>,
) -> bool {
    forall|i: int| 0 <= i < texts.len() ==> reading_of(t1, #[trigger] texts[i]) == reading_of(t2, texts[i])
}

#[verifier::spinoff_prover]
#[verifier::rlimit(40)]
proof fn lemma_trace_from_reads_texts(
    b: Seq<u8>,
    t1: Seq<(Seq<char>, Timestamp)>,
    t2: Seq<(Seq<char>, Timestamp)>,
    p: nat,
    last: Option<nat>,
    acc: Seq<EntryView>,
)
    requires
        agree_on(t1, t2, line_token_texts(b, p)),
    ensures
        trace_from(b, t1, p, last, acc) == trace_from(b, t2, p, last, acc),
    decreases b.len() - p,
{
    if p < b.len() {
        lemma_line_break(b, p);
        let (e, next) = line_bounds(b, p);
        let toks = tokens_in(b, p, e);
        let mine = toks.map_values(|t: (nat, nat)| text_of(b, t.0, t.1));
        let rest = line_token_texts(b, next);
        let all = line_token_texts(b, p);
        assert(all == mine + rest);
        assert forall|i: int| 0 <= i < rest.len() implies reading_of(t1, #[trigger] rest[i]) == reading_of(
            t2,
            rest[i],
        ) by {
            assert(all[mine.len() + i] == rest[i]);
        }
        if toks.len() >= 2 {
            assert(all[1] == text_of(b, toks[1].0, toks[1].1));
        }
        assert(line_step(b, t1, p, last) == line_step(b, t2, p, last)) by {
            reveal(line_step);
        }
        match line_step(b, t1, p, last) {
            LineStep::Skip => lemma_trace_from_reads_texts(b, t1, t2, next, last, acc),
            LineStep::Entry(en) => lemma_trace_from_reads_texts(b, t1, t2, next, Some(en.at), acc.push(en)),
            _ => {},
        }
    }
}

/// Reading a trace looks up only the texts of its tokens: two tables of
/// readings that agree on those texts read it alike.
pub proof fn lemma_trace_reads_token_texts(
    b: Seq<u8>,
    t1: Seq<(Seq<char>, Timestamp)>,
    t2: Seq<(Seq<char>, Timestamp)>,
)
    requires
        agree_on(t1, t2, line_token_texts(b, 0)),
    ensures
        trace_of(b, t1) == trace_of(b, t2),
{
    lemma_trace_from_reads_texts(b, t1, t2, 0, None, Seq::empty());
}

/// Entry `e` of the trace `b` stands where it says: its line begins at
/// `line_start`, its rule name is the first token of that line, and the
/// name's text is its bytes.
pub open spec fn entry_in_place(b: Seq<u8>, e: EntryView) -> bool {
    &&& e.line_start == 0 || b[e.line_start - 1] == 10
    &&& e.line_start <= e.rule_offset
    &&& e.rule_len >= 1
    &&& e.rule_offset + e.rule_len <= b.len()
    &&& text_of(b, e.rule_offset, e.rule_offset + e.rule_len) == e.rule
    &&& forall|i: int| e.line_start <= i < e.rule_offset ==> is_ascii_ws(#[trigger] b[i]) && b[i] != 10
    &&& forall|i: int| e.rule_offset <= i < e.rule_offset + e.rule_len ==> !is_ascii_ws(#[trigger] b[i])
}

/// Entries in place, on lines in order.
pub open spec fn entries_in_place(b: Seq<u8>, es: Seq<EntryView>) -> bool {
    &&& forall|i: int| 0 <= i < es.len() ==> entry_in_place(b, #[trigger] es[i])
    &&& forall|i: int, j: int| 0 <= i < j < es.len() ==> (#[trigger] es[i]).line_start < (#[trigger] es[j]).line_start
}

#[verifier::spinoff_prover]
#[verifier::rlimit(40)]
proof fn lemma_line_entry_in_place(b: Seq<u8>, times: Seq<(Seq<char>, Timestamp)>, p: nat, last: Option<nat>)
    requires
        p < b.len(),
        p == 0 || b[p - 1] == 10,
    ensures
        line_step(b, times, p, last) matches LineStep::Entry(e) ==> entry_in_place(b, e) && e.line_start == p,
{
    lemma_line_break(b, p);
    let end = line_bounds(b, p).0;
    if let LineStep::Entry(e) = line_step(b, times, p, last) {
        let toks = tokens_in(b, p, end);
        lemma_tokens(b, p, end);
        lemma_tokens_cover(b, p, end);
        assert({
            &&& toks.len() >= 1
            &&& e.line_start == p
            &&& e.rule_offset == toks[0].0
            &&& e.rule_len == toks[0].1 - toks[0].0
            &&& e.rule == text_of(b, toks[0].0, toks[0].1)
        }) by {
            reveal(line_step);
        }
        let (rs, re) = toks[0];
        assert(p <= rs < re <= end);
        assert forall|i: int| p <= i < rs implies is_ascii_ws(#[trigger] b[i]) && b[i] != 10 by {}
        assert forall|i: int| rs <= i < re implies !is_ascii_ws(#[trigger] b[i]) by {}
    }
}

proof fn lemma_trace_from_in_place(b: Seq<u8>, times: Seq<(Seq<char>, Timestamp)>, p: nat, last: Option<nat>, acc: Seq<EntryView>)
    requires
        p <= b.len(),
        p == 0 || p == b.len() || b[p - 1] == 10,
        entries_in_place(b, acc),
        forall|i: int| 0 <= i < acc.len() ==> (#[trigger] acc[i]).line_start < p,
    ensures
        trace_from(b, times, p, last, acc) matches TraceOutcome::Parsed(es) ==> entries_in_place(b, es),
    decreases b.len() - p,
{
    if p < b.len() {
        lemma_line_break(b, p);
        let next = line_bounds(b, p).1;
        lemma_line_entry_in_place(b, times, p, last);
        match line_step(b, times, p, last) {
            LineStep::Skip => lemma_trace_from_in_place(b, times, next, last, acc),
            LineStep::Entry(e) => {
                let acc2 = acc.push(e);
                assert forall|i: int| 0 <= i < acc2.len() implies entry_in_place(b, #[trigger] acc2[i]) by {
                    if i < acc.len() {
                        assert(acc2[i] == acc[i]);
                    }
                }
                assert forall|i: int, j: int| 0 <= i < j < acc2.len() implies (#[trigger] acc2[i]).line_start
                    < (#[trigger] acc2[j]).line_start by {
                    assert(acc2[i] == acc[i]);
                    if j < acc.len() {
                        assert(acc2[j] == acc[j]);
                    }
                }
                assert forall|i: int| 0 <= i < acc2.len() implies (#[trigger] acc2[i]).line_start < next by {
                    if i < acc.len() {
                        assert(acc2[i] == acc[i]);
                    }
                }
                lemma_trace_from_in_place(b, times, next, Some(e.at), acc2);
            },
            _ => {},
        }
    }
}

/// Each request of a trace that reads stands where it says: on a line of its
/// own, which begins at its `line_start`, with its rule name as the line's
/// first token, whose bytes are the name; the requests come in the order of
/// their lines.
pub proof fn lemma_trace_entries_in_place(b: Seq<u8>, times: Seq<(Seq<char>, Timestamp)>)
    ensures
        trace_of(b, times) matches TraceOutcome::Parsed(es) ==> entries_in_place(b, es),
{
    lemma_trace_from_in_place(b, times, 0, None, Seq::empty());
}

/// Entries in order of time: each comes no earlier than the one before it.
pub open spec fn sorted_by_time(es: Seq<EntryView>) -> bool {
    forall|i: int, j: int| 0 <= i <= j < es.len() ==> #[trigger] es[i].at <= #[trigger] es[j].at
}

/// Entries in order of time, the last one at `last`.
spec fn in_time_order(acc: Seq<EntryView>, last: Option<nat>) -> bool {
    &&& sorted_by_time(acc)
    &&& acc.len() > 0 ==> last == Some(acc.last().at)
}

#[verifier::spinoff_prover]
#[verifier::rlimit(40)]
proof fn lemma_trace_from_in_order(b: Seq<u8>, times: Seq<(Seq<char>, Timestamp)>, p: nat, last: Option<nat>, acc: Seq<EntryView>)
    requires
        in_time_order(acc, last),
    ensures
        trace_from(b, times, p, last, acc) matches TraceOutcome::Parsed(es) ==> sorted_by_time(es),
    decreases b.len() - p,
{
    if p < b.len() {
        lemma_line_break(b, p);
        let next = line_bounds(b, p).1;
        reveal(line_step);
        match line_step(b, times, p, last) {
            LineStep::Skip => lemma_trace_from_in_order(b, times, next, last, acc),
            LineStep::Entry(e) => {
                let acc2 = acc.push(e);
                assert(acc.len() > 0 ==> acc.last().at <= e.at);
                assert forall|i: int, j: int| 0 <= i <= j < acc2.len() implies #[trigger] acc2[i].at
                    <= #[trigger] acc2[j].at by {
                    if j == acc.len() && i < j {
                        assert(acc[i].at <= acc[acc.len() - 1].at);
                    }
                }
                lemma_trace_from_in_order(b, times, next, Some(e.at), acc2);
            },
            _ => {},
        }
    }
}

/// A trace that reads is in order of time: each request comes no earlier
/// than the one before it.
pub proof fn lemma_trace_in_time_order(b: Seq<u8>, times: Seq<(Seq<char>, Timestamp)>)
    ensures
        trace_of(b, times) matches TraceOutcome::Parsed(es) ==> sorted_by_time(es),
{
    lemma_trace_from_in_order(b, times, 0, None, Seq::empty());
}

pub proof fn lemma_run_end_ge(b: Seq<u8>, p: nat, e: nat)
    ensures
        run_end(b, p, e) >= p,
        p <= e ==> run_end(b, p, e) <= e,
    decreases e - p,
{
    if !(p >= e || p >= b.len() || is_ascii_ws(b[p as int])) {
        lemma_run_end_ge(b, p + 1, e);
    }
}

proof fn lemma_line_break_bounds(b: Seq<u8>, p: nat)
    requires
        p <= b.len(),
    ensures
        p <= line_break(b, p) <= b.len(),
        line_break(b, p) < b.len() ==> b[line_break(b, p) as int] == 10,
        forall|i: int| p <= i < line_break(b, p) ==> b[i] != 10,
    decreases b.len() - p,
{
    if p < b.len() && b[p as int] != 10 {
        lemma_line_break_bounds(b, p + 1);
    }
}

pub proof fn lemma_line_break(b: Seq<u8>, p: nat)
    requires
        p < b.len(),
    ensures
        p <= line_break(b, p) <= b.len(),
        line_break(b, p) < b.len() ==> b[line_break(b, p) as int] == 10,
        forall|i: int| p <= i < line_break(b, p) ==> b[i] != 10,
        line_bounds(b, p).1 > p,
        line_bounds(b, p).1 <= b.len(),
        p <= line_bounds(b, p).0 <= line_bounds(b, p).1,
        line_bounds(b, p).0 <= line_break(b, p),
{
    lemma_line_break_bounds(b, p);
    let nl = line_break(b, p);
    let next: nat = if nl < b.len() { nl + 1 } else { b.len() };
    let whole = b.subrange(p as int, next as int);
    lemma_trim_end_len(whole, 10);
    lemma_trim_end_len(trim_end(whole, 10), 13);
    if nl < b.len() {
        assert(whole.last() == 10);
        lemma_trim_end_len(whole.drop_last(), 10);
        assert(trim_end(whole, 10) == trim_end(whole.drop_last(), 10));
    }
}

/// Trimming keeps a prefix.
pub proof fn lemma_trim_end_len(s: Seq<u8>, c: u8)
    ensures
        trim_end(s, c).len() <= s.len(),
        trim_end(s, c) == s.subrange(0, trim_end(s, c).len() as int),
        forall|i: int| trim_end(s, c).len() <= i < s.len() ==> s[i] == c,
    decreases s.len(),
{
    if s.len() > 0 && s.last() == c {
        lemma_trim_end_len(s.drop_last(), c);
        assert(s.drop_last().subrange(0, trim_end(s, c).len() as int) =~= s.subrange(
            0,
            trim_end(s, c).len() as int,
        ));
        assert forall|i: int| trim_end(s, c).len() <= i < s.len() implies s[i] == c by {
            if i < s.len() - 1 {
                assert(s[i] == s.drop_last()[i]);
            }
        }
    } else {
        assert(s.subrange(0, s.len() as int) =~= s);
    }
}

proof fn lemma_run_end(b: Seq<u8>, p: nat, e: nat)
    requires
        p <= e <= b.len(),
    ensures
        p <= run_end(b, p, e) <= e,
        run_end(b, p, e) < e ==> is_ascii_ws(b[run_end(b, p, e) as int]),
        forall|i: int| p <= i < run_end(b, p, e) ==> !is_ascii_ws(b[i]),
    decreases e - p,
{
    if p < e && !is_ascii_ws(b[p as int]) {
        lemma_run_end(b, p + 1, e);
    }
}

/// The tokens of `p..e` leave out blanks only: every non-blank byte lies in
/// a token, the bytes before the first token are blank, and tokens come in
/// order without overlapping.
#[verifier::spinoff_prover]
#[verifier::rlimit(40)]
pub proof fn lemma_tokens_cover(b: Seq<u8>, p: nat, e: nat)
    requires
        p <= e <= b.len(),
    ensures
        ({
            let toks = tokens_in(b, p, e);
            &&& forall|i: int|
                p <= i < e && !is_ascii_ws(b[i]) ==> exists|k: int|
                    0 <= k < toks.len() && (#[trigger] toks[k]).0 <= i < toks[k].1
            &&& forall|i: int|
                p <= i < e && (toks.len() == 0 || i < toks[0].0) ==> is_ascii_ws(#[trigger] b[i])
            &&& forall|j: int, k: int|
                0 <= j < k < toks.len() ==> (#[trigger] toks[j]).1 <= (#[trigger] toks[k]).0
        }),
    decreases e - p,
{
    lemma_tokens(b, p, e);
    if p < e {
        let toks = tokens_in(b, p, e);
        if is_ascii_ws(b[p as int]) {
            lemma_tokens_cover(b, p + 1, e);
            assert(toks == tokens_in(b, p + 1, e));
        } else {
            let r = run_end(b, p + 1, e);
            lemma_run_end(b, p + 1, e);
            lemma_tokens_cover(b, r, e);
            lemma_tokens(b, r, e);
            let rest = tokens_in(b, r, e);
            assert(toks == seq![(p, r)] + rest);
            assert forall|i: int| p <= i < e && !is_ascii_ws(b[i]) implies exists|k: int|
                0 <= k < toks.len() && (#[trigger] toks[k]).0 <= i < toks[k].1 by {
                if i < r {
                    assert(toks[0] == (p, r));
                } else {
                    let k2 = choose|k: int| 0 <= k < rest.len() && (#[trigger] rest[k]).0 <= i < rest[k].1;
                    assert(toks[k2 + 1] == rest[k2]);
                }
            }
            assert forall|j: int, k: int| 0 <= j < k < toks.len() implies (#[trigger] toks[j]).1
                <= (#[trigger] toks[k]).0 by {
                assert(toks[k] == rest[k - 1]);
                if j > 0 {
                    assert(toks[j] == rest[j - 1]);
                }
            }
        }
    }
}

/// Rust's ASCII whitespace, written out byte by byte: space, tab, line feed,
/// form feed and carriage return.
pub open spec fn rust_ascii_whitespace(c: u8) -> bool {
    c == 32 || c == 9 || c == 10 || c == 12 || c == 13
}

/// The tokens of `p..e` are what splitting at Rust's ASCII whitespace gives:
/// no token holds a whitespace byte (a tab included), each token is bounded
/// by whitespace or by the ends of the range, and every byte outside the
/// tokens is whitespace.
pub proof fn lemma_tokens_split_at_whitespace(b: Seq<u8>, p: nat, e: nat)
    requires
        p <= e <= b.len(),
    ensures
        ({
            let toks = tokens_in(b, p, e);
            &&& forall|k: int, i: int|
                0 <= k < toks.len() && (#[trigger] toks[k]).0 <= i < toks[k].1 ==> !rust_ascii_whitespace(
                    #[trigger] b[i],
                )
            &&& forall|k: int|
                0 <= k < toks.len() ==> p <= (#[trigger] toks[k]).0 < toks[k].1 <= e && (toks[k].0 == p
                    || rust_ascii_whitespace(b[toks[k].0 - 1])) && (toks[k].1 == e || rust_ascii_whitespace(
                    b[toks[k].1 as int],
                ))
            &&& forall|i: int|
                p <= i < e && !rust_ascii_whitespace(b[i]) ==> exists|k: int|
                    0 <= k < toks.len() && (#[trigger] toks[k]).0 <= i < toks[k].1
        }),
{
    lemma_tokens(b, p, e);
    lemma_tokens_cover(b, p, e);
    let toks = tokens_in(b, p, e);
    assert forall|k: int, i: int|
        0 <= k < toks.len() && (#[trigger] toks[k]).0 <= i < toks[k].1 implies !rust_ascii_whitespace(
        #[trigger] b[i],
    ) by {
        let (s0, r0) = toks[k];
        assert(!is_ascii_ws(b[i]));
    }
    assert forall|i: int| p <= i < e && !rust_ascii_whitespace(b[i]) implies exists|k: int|
        0 <= k < toks.len() && (#[trigger] toks[k]).0 <= i < toks[k].1 by {
        assert(!is_ascii_ws(b[i]));
    }
}

/// Each token is a non-empty run of non-blank bytes within `p..e`, preceded
/// by a blank or by `p`, followed by a blank or by `e`; tokens come in order.
pub proof fn lemma_tokens(b: Seq<u8>, p: nat, e: nat)
    requires
        p <= e <= b.len(),
    ensures
        forall|k: int|
            0 <= k < tokens_in(b, p, e).len() ==> {
                let (s, r) = #[trigger] tokens_in(b, p, e)[k];
                &&& p <= s < r <= e
                &&& !is_ascii_ws(b[s as int])
                &&& (s == p || is_ascii_ws(b[s - 1]))
                &&& (r == e || is_ascii_ws(b[r as int]))
                &&& (forall|i: int| s <= i < r ==> !is_ascii_ws(b[i]))
            },
    decreases e - p,
{
    if p < e {
        if is_ascii_ws(b[p as int]) {
            lemma_tokens(b, p + 1, e);
            let all = tokens_in(b, p, e);
            assert(all == tokens_in(b, p + 1, e));
            assert forall|k: int| 0 <= k < all.len() implies {
                let (s, r2) = #[trigger] all[k];
                &&& p <= s < r2 <= e
                &&& !is_ascii_ws(b[s as int])
                &&& (s == p || is_ascii_ws(b[s - 1]))
                &&& (r2 == e || is_ascii_ws(b[r2 as int]))
                &&& (forall|i: int| s <= i < r2 ==> !is_ascii_ws(b[i]))
            } by {
                let (s, r2) = all[k];
                if s == p + 1 {
                    assert(b[s - 1] == b[p as int]);
                }
            }
        } else {
            let r = run_end(b, p + 1, e);
            lemma_run_end(b, p + 1, e);
            lemma_tokens(b, r, e);
            let rest = tokens_in(b, r, e);
            let all = tokens_in(b, p, e);
            assert(all =~= seq![(p, r)] + rest);
            assert forall|k: int| 0 <= k < all.len() implies {
                let (s, r2) = #[trigger] all[k];
                &&& p <= s < r2 <= e
                &&& !is_ascii_ws(b[s as int])
                &&& (s == p || is_ascii_ws(b[s - 1]))
                &&& (r2 == e || is_ascii_ws(b[r2 as int]))
                &&& (forall|i: int| s <= i < r2 ==> !is_ascii_ws(b[i]))
            } by {
                if k > 0 {
                    assert(all[k] == rest[k - 1]);
                    let (s, r2) = rest[k - 1];
                    if s == r {
                        assert(r < e);
                        assert(is_ascii_ws(b[r as int]));
                    }
                } else {
                    assert(all[k] == (p, r));
                }
            }
        }
    }
}

/// An entry of a trace: the rule it names and where, the time of the
/// request in nanoseconds since the start of the trace, and where its line
/// starts.
#[derive(Debug)]
pub struct TraceEntry {
    pub rule: String,
    pub rule_offset: usize,
    pub rule_len: usize,
    pub at_nanos: u128,
    pub line_start: usize,
}

impl View for TraceEntry {
    type V = EntryView;

    open spec fn view(&self) -> EntryView {
        EntryView {
            rule: self.rule@,
            rule_offset: self.rule_offset as nat,
            rule_len: self.rule_len as nat,
            at: self.at_nanos as nat,
            line_start: self.line_start as nat,
        }
    }
}

/// The entries, as plain values.
pub open spec fn entry_views(v: Seq<TraceEntry>) -> Seq<EntryView> {
    v.map_values(|e: TraceEntry| e@)
}

/// The outcome of reading a trace, as plain values.
pub open spec fn parse_outcome(r: Result<Vec<TraceEntry>, Diagnostic>) -> TraceOutcome {
    match r {
        Ok(v) => TraceOutcome::Parsed(entry_views(v@)),
        Err(e) => TraceOutcome::Failed(e@),
    }
}

/// Parses a trace file: every request in order, or the first error with its
/// exact location. `times` gives the reading of each timestamp text; see
/// `token_texts` for the texts it needs to hold.
pub fn parse_trace(src: &str, times: &[(String, TimeReading)]) -> (r: Result<Vec<TraceEntry>, Diagnostic>)
    ensures
        parse_outcome(r) == trace_of(src.spec_bytes(), time_table(times@)),
{
    let ghost b = src.spec_bytes();
    let bytes = src.as_bytes();
    let n = bytes.len();
    proof {
        lemma_str_valid(src);
    }
    let mut entries: Vec<TraceEntry> = Vec::new();
    let mut last: Option<u128> = None;
    let mut offset: usize = 0;
    assert(entry_views(entries@) =~= Seq::<EntryView>::empty());
    while offset < n
        invariant
            offset <= n == b.len(),
            bytes@ == b,
            b == src.spec_bytes(),
            valid_utf8(b),
            offset == 0 || offset == n || b[offset - 1] == 10,
            trace_of(b, time_table(times@)) == trace_from(
                b,
                time_table(times@),
                offset as nat,
                match last {
                    Some(x) => Some(x as nat),
                    None => None,
                },
                entry_views(entries@),
            ),
        decreases n - offset,
    {
        let line_start = offset;
        proof {
            lemma_line_break(b, line_start as nat);
        }
        let (end, next) = line_end(bytes, line_start);
        offset = next;
        match read_line(src, times, line_start, end, next, last) {
            LineResult::Skip => {},
            LineResult::Entry(entry) => {
                last = Some(entry.at_nanos);
                let ghost before = entry_views(entries@);
                entries.push(entry);
                assert(entry_views(entries@) =~= before.push(entries@.last()@));
            },
            LineResult::Fail(d) => {
                return Err(d);
            },
        }
    }
    Ok(entries)
}

/// The texts of the whitespace-separated tokens of every line of `src`, line
/// by line: the texts whose readings `parse_trace` may look up.
pub fn token_texts(src: &str) -> (r: Vec<String>)
    ensures
        r@.map_values(|t: String| t@) == line_token_texts(src.spec_bytes(), 0),
{
    let ghost b = src.spec_bytes();
    let bytes = src.as_bytes();
    let n = bytes.len();
    proof {
        lemma_str_valid(src);
    }
    let mut texts: Vec<String> = Vec::new();
    let mut offset: usize = 0;
    assert(texts@.map_values(|t: String| t@) =~= Seq::<Seq<char>>::empty());
    while offset < n
        invariant
            offset <= n == b.len(),
            bytes@ == b,
            b == src.spec_bytes(),
            valid_utf8(b),
            offset == 0 || offset == n || b[offset - 1] == 10,
            texts@.map_values(|t: String| t@) + line_token_texts(b, offset as nat) == line_token_texts(b, 0),
        decreases n - offset,
    {
        let line_start = offset;
        proof {
            lemma_line_break(b, line_start as nat);
        }
        let (end, next) = line_end(bytes, line_start);
        let toks = tokenize_line(bytes, line_start, end);
        proof {
            lemma_tokens(b, line_start as nat, end as nat);
        }
        let ghost spec_toks = tokens_in(b, line_start as nat, end as nat);
        let ghost mine = spec_toks.map_values(|t: (nat, nat)| text_of(b, t.0, t.1));
        let ghost before = texts@.map_values(|t: String| t@);
        assert(line_token_texts(b, line_start as nat) == mine + line_token_texts(b, next as nat));
        let mut k: usize = 0;
        while k < toks.len()
            invariant
                k <= toks@.len() == spec_toks.len(),
                bytes@ == b,
                valid_utf8(b),
                b == src.spec_bytes(),
                line_start <= end <= next <= b.len(),
                line_start == 0 || b[line_start - 1] == 10,
                end == next || b[end as int] == 10 || b[end as int] == 13,
                next == b.len() || b[next - 1] == 10,
                forall|j: int|
                    0 <= j < toks@.len() ==> (#[trigger] toks@[j]).0 as nat == spec_toks[j].0
                        && toks@[j].1 as nat == spec_toks[j].1,
                forall|j: int|
                    0 <= j < spec_toks.len() ==> {
                        let (s, r) = #[trigger] spec_toks[j];
                        &&& line_start <= s < r <= end
                        &&& (s == line_start || is_ascii_ws(b[s - 1]))
                        &&& (r == end || is_ascii_ws(b[r as int]))
                    },
                mine == spec_toks.map_values(|t: (nat, nat)| text_of(b, t.0, t.1)),
                texts@.map_values(|t: String| t@) == before + mine.take(k as int),
            decreases toks@.len() - k,
        {
            let (s, r) = toks[k];
            proof {
                let _ = spec_toks[k as int];
                token_boundaries(b, line_start as nat, end as nat, next as nat, s as nat, r as nat);
            }
            let t = slice_str(src, s, r).to_owned();
            let ghost prev = texts@;
            texts.push(t);
            assert(texts@.map_values(|t: String| t@) =~= prev.map_values(|t: String| t@).push(
                mine[k as int],
            ));
            assert(mine.take(k + 1) =~= mine.take(k as int).push(mine[k as int]));
            k = k + 1;
        }
        assert(mine.take(k as int) =~= mine);
        offset = next;
    }
    assert(line_token_texts(b, offset as nat) =~= Seq::<Seq<char>>::empty());
    assert(texts@.map_values(|t: String| t@) + Seq::<Seq<char>>::empty() =~= texts@.map_values(
        |t: String| t@,
    ));
    texts
}

/// Where the line that starts at `line_start` ends, line break excluded,
/// and where the next line starts.
fn line_end(bytes: &[u8], line_start: usize) -> (r: (usize, usize))
    requires
        line_start < bytes@.len(),
    ensures
        (r.0 as nat, r.1 as nat) == line_bounds(bytes@, line_start as nat),
        line_start <= r.0 <= r.1 <= bytes@.len(),
        r.1 > line_start,
        r.1 == bytes@.len() || bytes@[r.1 - 1] == 10,
        r.0 == r.1 || bytes@[r.0 as int] == 10 || bytes@[r.0 as int] == 13,
{
    let ghost b = bytes@;
    let n = bytes.len();
    proof {
        lemma_line_break(b, line_start as nat);
    }
    let mut nl = line_start;
    while nl < n && bytes[nl] != 10u8
        invariant
            line_start <= nl <= n == b.len(),
            bytes@ == b,
            line_break(b, line_start as nat) == line_break(b, nl as nat),
        decreases n - nl,
    {
        nl = nl + 1;
    }
    let next = if nl < n {
        nl + 1
    } else {
        n
    };
    let mut end = next;
    while end > line_start && bytes[end - 1] == 10u8
        invariant
            line_start <= end <= next <= n == b.len(),
            bytes@ == b,
            trim_end(b.subrange(line_start as int, next as int), 10) == trim_end(
                b.subrange(line_start as int, end as int),
                10,
            ),
            forall|i: int| end <= i < next ==> b[i] == 10 || b[i] == 13,
        decreases end,
    {
        assert(b.subrange(line_start as int, end as int).drop_last() =~= b.subrange(
            line_start as int,
            end - 1,
        ));
        end = end - 1;
    }
    let ghost no_lf = b.subrange(line_start as int, end as int);
    assert(trim_end(no_lf, 10) == no_lf);
    while end > line_start && bytes[end - 1] == 13u8
        invariant
            line_start <= end <= next <= n == b.len(),
            bytes@ == b,
            trim_end(no_lf, 13) == trim_end(b.subrange(line_start as int, end as int), 13),
            forall|i: int| end <= i < next ==> b[i] == 10 || b[i] == 13,
        decreases end,
    {
        assert(b.subrange(line_start as int, end as int).drop_last() =~= b.subrange(
            line_start as int,
            end - 1,
        ));
        end = end - 1;
    }
    proof {
        let s = b.subrange(line_start as int, end as int);
        assert(trim_end(s, 13) == s);
    }
    (end, next)
}

/// What one line says, as the reader hands it on.
enum LineResult {
    Skip,
    Entry(TraceEntry),
    Fail(Diagnostic),
}

/// The line result, as plain values.
spec fn line_result_view(r: LineResult) -> LineStep {
    match r {
        LineResult::Skip => LineStep::Skip,
        LineResult::Entry(e) => LineStep::Entry(e@),
        LineResult::Fail(d) => LineStep::Fail(d@),
    }
}

/// Reads the line `line_start..end` of `src` (the next one starts at
/// `next`), after a request at time `last`.
fn read_line(src: &str, times: &[(String, TimeReading)], line_start: usize, end: usize, next: usize, last: Option<u128>) -> (r: LineResult)
    requires
        line_start < src.spec_bytes().len(),
        line_start == 0 || src.spec_bytes()[line_start - 1] == 10,
        (end as nat, next as nat) == line_bounds(src.spec_bytes(), line_start as nat),
        line_start <= end <= next <= src.spec_bytes().len(),
        next == src.spec_bytes().len() || src.spec_bytes()[next - 1] == 10,
        end == next || src.spec_bytes()[end as int] == 10 || src.spec_bytes()[end as int] == 13,
    ensures
        line_result_view(r) == line_step(
            src.spec_bytes(),
            time_table(times@),
            line_start as nat,
            match last {
                Some(x) => Some(x as nat),
                None => None,
            },
        ),
        r matches LineResult::Entry(e) ==> (last matches Some(p) ==> p <= e.at_nanos),
{
    reveal(line_step);
    let ghost b = src.spec_bytes();
    let bytes = src.as_bytes();
    proof {
        lemma_str_valid(src);
    }
    let toks = tokenize_line(bytes, line_start, end);
    proof {
        lemma_tokens(b, line_start as nat, end as nat);
    }
    if toks.len() == 0 || bytes[toks[0].0] == 35u8 {
        return LineResult::Skip;
    }
    if toks.len() < 2 {
        let (rule_offset, rule_end) = toks[0];
        return LineResult::Fail(
            Diagnostic {
                message: String::from_str("expected a timestamp after the rule name"),
                offset: rule_offset,
                len: rule_end - rule_offset,
                help: Some(String::from_str("expected a line like 'login 1.5'")),
                secondary: None,
            },
        );
    }
    if toks.len() > 2 {
        let (extra_offset, _) = toks[2];
        return LineResult::Fail(
            Diagnostic {
                message: String::from_str("unexpected extra text after timestamp"),
                offset: extra_offset,
                len: end - extra_offset,
                help: None,
                secondary: None,
            },
        );
    }
    let (rule_offset, rule_end) = toks[0];
    let (time_offset, time_end) = toks[1];
    proof {
        token_boundaries(
            b,
            line_start as nat,
            end as nat,
            next as nat,
            rule_offset as nat,
            rule_end as nat,
        );
        token_boundaries(
            b,
            line_start as nat,
            end as nat,
            next as nat,
            time_offset as nat,
            time_end as nat,
        );
    }
    let time_text = slice_str(src, time_offset, time_end);
    let at = match reading_in(times, time_text) {
        TimeReading::Nanos(at) => at,
        TimeReading::TooLarge => {
            return LineResult::Fail(
                bad_timestamp(src, time_offset, time_end, "timestamps must be less than 2^64 seconds"),
            );
        },
        TimeReading::Invalid => {
            return LineResult::Fail(
                bad_timestamp(
                    src,
                    time_offset,
                    time_end,
                    "timestamps are seconds since the start of the trace, e.g. '1.5'",
                ),
            );
        },
        _ => {
            return LineResult::Fail(
                bad_timestamp(src, time_offset, time_end, "timestamps must be non-negative"),
            );
        },
    };
    match last {
        Some(prev) => {
            if at < prev {
                return LineResult::Fail(
                    Diagnostic {
                        message: String::from_str(
                            "timestamps must be non-decreasing across the trace",
                        ),
                        offset: time_offset,
                        len: time_end - time_offset,
                        help: Some(
                            String::from_str(
                                "sort the trace by timestamp, or split it into per-rule traces",
                            ),
                        ),
                        secondary: None,
                    },
                );
            }
        },
        None => {},
    }
    let rule = slice_str(src, rule_offset, rule_end).to_owned();
    LineResult::Entry(
        TraceEntry { rule, rule_offset, rule_len: rule_end - rule_offset, at_nanos: at, line_start },
    )
}

/// The reading of the timestamp text `text` in `times`.
fn reading_in(times: &[(String, TimeReading)], text: &str) -> (r: TimeReading)
    ensures
        r@ == reading_of(time_table(times@), text@),
{
    let ghost all = time_table(times@);
    let mut i: usize = 0;
    assert(all.subrange(0, all.len() as int) =~= all);
    while i < times.len()
        invariant
            i <= times@.len(),
            all == time_table(times@),
            reading_of(all, text@) == reading_of(all.subrange(i as int, all.len() as int), text@),
        decreases times@.len() - i,
    {
        let ghost rest = all.subrange(i as int, all.len() as int);
        assert(rest[0] == all[i as int]);
        assert(rest.drop_first() =~= all.subrange(i + 1, all.len() as int));
        if str_eq(times[i].0.as_str(), text) {
            return match &times[i].1 {
                TimeReading::Invalid => TimeReading::Invalid,
                TimeReading::NonFinite => TimeReading::NonFinite,
                TimeReading::Negative => TimeReading::Negative,
                TimeReading::TooLarge => TimeReading::TooLarge,
                TimeReading::Nanos(n) => TimeReading::Nanos(*n),
            };
        }
        i = i + 1;
    }
    assert(all.subrange(i as int, all.len() as int) =~= Seq::<(Seq<char>, Timestamp)>::empty());
    TimeReading::Invalid
}

/// The error for an unreadable timestamp `src[from..to]`.
fn bad_timestamp(src: &str, from: usize, to: usize, help: &str) -> (d: Diagnostic)
    requires
        from <= to <= src.spec_bytes().len(),
        is_char_boundary(src.spec_bytes(), from as int),
        is_char_boundary(src.spec_bytes(), to as int),
    ensures
        d@ == invalid_timestamp(src.spec_bytes(), from as nat, to as nat, help@),
{
    let mut message = String::new();
    message.append("invalid timestamp '");
    message.append(slice_str(src, from, to));
    message.append("'");
    Diagnostic { message, offset: from, len: to - from, help: Some(String::from_str(help)), secondary: None }
}

/// Both ends of a token of a line fall on character boundaries.
proof fn token_boundaries(b: Seq<u8>, line_start: nat, end: nat, next: nat, s: nat, r: nat)
    requires
        valid_utf8(b),
        line_start <= s < r <= end <= next <= b.len(),
        line_start == 0 || b[line_start - 1] == 10,
        s == line_start || is_ascii_ws(b[s - 1]),
        r == end || is_ascii_ws(b[r as int]),
        end == next || b[end as int] == 10 || b[end as int] == 13,
        next == b.len() || b[next - 1] == 10,
    ensures
        is_char_boundary(b, s as int),
        is_char_boundary(b, r as int),
{
    is_char_boundary_start_end_of_seq(b);
    if s > 0 {
        lemma_boundary_after_ascii(b, s as int);
    }
    if r < end {
        lemma_boundary_at_ascii(b, r as int);
    } else if end < next {
        lemma_boundary_at_ascii(b, end as int);
    } else if next < b.len() {
        lemma_boundary_after_ascii(b, next as int);
    }
}

/// The whitespace-separated tokens of the bytes `start..end` of `src`, as
/// byte ranges.
fn tokenize_line(src: &[u8], start: usize, end: usize) -> (r: Vec<(usize, usize)>)
    requires
        start <= end <= src@.len(),
    ensures
        r@.len() == tokens_in(src@, start as nat, end as nat).len(),
        forall|k: int|
            0 <= k < r@.len() ==> (#[trigger] r@[k]).0 as nat == tokens_in(
                src@,
                start as nat,
                end as nat,
            )[k].0 && r@[k].1 as nat == tokens_in(src@, start as nat, end as nat)[k].1,
{
    let ghost b = src@;
    let mut tokens: Vec<(usize, usize)> = Vec::new();
    let mut idx = start;
    while idx < end
        invariant
            start <= idx <= end <= b.len(),
            src@ == b,
            tokens_in(b, start as nat, end as nat) == tokens_as_nats(tokens@) + tokens_in(
                b,
                idx as nat,
                end as nat,
            ),
        ensures
            idx >= end,
        decreases end - idx,
    {
        let ghost idx0 = idx;
        while idx < end && ascii_ws(src[idx])
            invariant
                idx0 <= idx,
                start <= idx <= end <= b.len(),
                src@ == b,
                tokens_in(b, start as nat, end as nat) == tokens_as_nats(tokens@) + tokens_in(
                    b,
                    idx as nat,
                    end as nat,
                ),
            decreases end - idx,
        {
            idx = idx + 1;
        }
        if idx >= end {
            break;
        }
        let token_start = idx;
        assert(token_start >= idx0);
        proof {
            lemma_run_end(b, (token_start + 1) as nat, end as nat);
        }
        idx = idx + 1;
        while idx < end && !ascii_ws(src[idx])
            invariant
                token_start < idx <= end <= b.len(),
                src@ == b,
                run_end(b, (token_start + 1) as nat, end as nat) == run_end(b, idx as nat, end as nat),
            decreases end - idx,
        {
            idx = idx + 1;
        }
        let ghost before = tokens_as_nats(tokens@);
        tokens.push((token_start, idx));
        assert(tokens_as_nats(tokens@) =~= before.push((token_start as nat, idx as nat)));
        assert(tokens_in(b, token_start as nat, end as nat) =~= seq![(token_start as nat, idx as nat)]
            + tokens_in(b, idx as nat, end as nat));
        assert(before + tokens_in(b, token_start as nat, end as nat) =~= before.push(
            (token_start as nat, idx as nat),
        ) + tokens_in(b, idx as nat, end as nat));
    }
    assert(tokens_in(b, idx as nat, end as nat) =~= Seq::<(nat, nat)>::empty());
    assert(tokens_in(b, start as nat, end as nat) =~= tokens_as_nats(tokens@));
    tokens
}

/// Byte ranges as natural numbers.
pub open spec fn tokens_as_nats(v: Seq<(usize, usize)>) -> Seq<(nat, nat)> {
    v.map_values(|t: (usize, usize)| (t.0 as nat, t.1 as nat))
}

fn ascii_ws(c: u8) -> (r: bool)
    ensures
        r == is_ascii_ws(c),
{
    c == 32u8 || c == 9u8 || c == 10u8 || c == 12u8 || c == 13u8
}

} // verus!
