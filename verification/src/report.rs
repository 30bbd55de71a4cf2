//! What the command-line tool computes before it prints: the summary line of
//! a rule, and the walk of a trace through one bucket per rule that finds
//! the first throttled request.

use vstd::prelude::*;
use vstd::string::StringExecFns;
use vstd::string::StringSliceAdditionalSpecFns;
use crate::config::{
    NumberValue, RateLimit, RuleView, lemma_rules_error_in_text, number_table, parse_rules, rule_views,
    rules_of,
};
use crate::diagnostics::{
    Diagnostic, DiagnosticView, SourceMap, lemma_line_col_points_back, line_col, rendered,
};
use crate::simulate::{BucketView, OutcomeView, TokenBucket, admit_step, fresh_bucket, run_bucket};
use crate::text::{decimal, push_decimal};
use crate::trace::{EntryView, TraceEntry, entry_views};

verus! {

/// A period written in seconds, as `<n>s`.
pub open spec fn period_text(secs: nat) -> Seq<char> {
    decimal(secs) + "s"@
}

/// Formats a period of `period_secs` seconds.
pub fn fmt_period(period_secs: u64) -> (r: String)
    ensures
        r@ == period_text(period_secs as nat),
{
    let mut out = String::new();
    push_decimal(&mut out, period_secs as u128);
    out.append("s");
    out
}

/// The line that describes a rule: `<name>: <count> per <period> (burst <burst>)`.
pub open spec fn summary_text(r: RuleView) -> Seq<char> {
    r.name + ": "@ + decimal(r.count as nat) + " per "@ + period_text(r.period_secs) + " (burst "@
        + decimal(r.burst as nat) + ")"@
}

/// Describes a rule in one line.
pub fn rule_summary(rule: &RateLimit) -> (r: String)
    ensures
        r@ == summary_text(rule@),
{
    let mut out = String::new();
    out.append(rule.name.as_str());
    out.append(": ");
    push_decimal(&mut out, rule.count as u128);
    out.append(" per ");
    let period = fmt_period(rule.period_secs);
    out.append(period.as_str());
    out.append(" (burst ");
    push_decimal(&mut out, rule.burst as u128);
    out.append(")");
    out
}

/// The summary lines of `rules`, one per rule, each ended by a line feed.
pub open spec fn summaries_text(rules: Seq<RuleView>) -> Seq<char>
    decreases rules.len(),
{
    if rules.len() == 0 {
        Seq::empty()
    } else {
        summaries_text(rules.drop_last()) + summary_text(rules.last()) + "\n"@
    }
}

/// What checking a file that defines `rules` (read from `path`) prints: a
/// note when there are none, then a summary line per rule.
pub open spec fn check_text(rules: Seq<RuleView>, path: Seq<char>) -> Seq<char> {
    (if rules.len() == 0 {
        "no rules defined in "@ + path + "\n"@
    } else {
        Seq::empty()
    }) + summaries_text(rules)
}

/// Checks the rules file `src`, read from `path`, whose number texts read as
/// `numbers` says: `Ok` with the text to print when it reads, else `Err`
/// with the rendered error.
pub fn check_output(src: &str, numbers: &[(String, NumberValue)], path: &str) -> (r: Result<String, String>)
    requires
        src.spec_bytes().len() < usize::MAX,
    ensures
        match rules_of(src.spec_bytes(), number_table(numbers@)) {
            Ok(rs) => r matches Ok(out) && out@ == check_text(rs, path@),
            Err(d) => r matches Err(out) && out@ == rendered(d, path@, src.spec_bytes()),
        },
{
    match parse_rules(src, numbers) {
        Ok(rules) => {
            let ghost rs = rule_views(rules@);
            let mut out = String::new();
            if rules.len() == 0 {
                out.append("no rules defined in ");
                out.append(path);
                out.append("\n");
            }
            let ghost head = out@;
            let mut i: usize = 0;
            assert(rs.take(0) =~= Seq::<RuleView>::empty());
            while i < rules.len()
                invariant
                    i <= rules@.len(),
                    rs == rule_views(rules@),
                    out@ == head + summaries_text(rs.take(i as int)),
                decreases rules@.len() - i,
            {
                let line = rule_summary(&rules[i]);
                out.append(line.as_str());
                out.append("\n");
                assert(rs.take(i + 1).drop_last() =~= rs.take(i as int));
                assert(rs.take(i + 1).last() == rules@[i as int]@);
                i = i + 1;
            }
            assert(rs.take(i as int) =~= rs);
            Ok(out)
        },
        Err(d) => {
            let map = SourceMap::new(src);
            proof {
                lemma_rules_error_in_text(src.spec_bytes(), number_table(numbers@));
                lemma_line_col_points_back(src.spec_bytes(), d.offset as nat);
            }
            Err(d.render(path, &map))
        },
    }
}

/// The line that reports request `index` (0-based), `e`, of the trace at
/// `path` with contents `text` as throttled; `seconds` is its time as shown.
pub open spec fn throttled_text(index: nat, e: EntryView, seconds: Seq<char>, path: Seq<char>, text: Seq<u8>) -> Seq<char> {
    "request "@ + decimal(index + 1) + " ("@ + e.rule + " @ "@ + seconds + "s) is throttled -- "@ + path + ":"@
        + decimal(line_col(text, e.line_start).0) + "\n"@
}

/// Reports request `index` (0-based), `entry`, of the trace at `trace_path`
/// mapped by `map` as throttled, its time shown as `seconds`.
pub fn throttled_line(index: usize, entry: &TraceEntry, seconds: &str, trace_path: &str, map: &SourceMap) -> (r: String)
    requires
        index < usize::MAX,
        line_col(map.source(), entry.line_start as nat).1 <= usize::MAX,
    ensures
        r@ == throttled_text(index as nat, entry@, seconds@, trace_path@, map.source()),
{
    let (line, _) = map.line_col(entry.line_start);
    let mut out = String::new();
    out.append("request ");
    push_decimal(&mut out, (index + 1) as u128);
    out.append(" (");
    out.append(entry.rule.as_str());
    out.append(" @ ");
    out.append(seconds);
    out.append("s) is throttled -- ");
    out.append(trace_path);
    out.append(":");
    push_decimal(&mut out, line as u128);
    out.append("\n");
    out
}

/// The line that reports that all `n` requests of the trace at `path` were
/// allowed.
pub open spec fn all_allowed_text(n: nat, path: Seq<char>) -> Seq<char> {
    "all "@ + decimal(n) + " requests in "@ + path + " were allowed\n"@
}

/// Reports that all `n` requests of the trace at `trace_path` were allowed.
pub fn all_allowed_line(n: usize, trace_path: &str) -> (r: String)
    ensures
        r@ == all_allowed_text(n as nat, trace_path@),
{
    let mut out = String::new();
    out.append("all ");
    push_decimal(&mut out, n as u128);
    out.append(" requests in ");
    out.append(trace_path);
    out.append(" were allowed\n");
    out
}

/// The index of the first rule named `name`.
pub open spec fn find_rule(rules: Seq<RuleView>, name: Seq<char>) -> Option<nat>
    decreases rules.len(),
{
    if rules.len() == 0 {
        None
    } else {
        match find_rule(rules.drop_last(), name) {
            Some(k) => Some(k),
            None => if rules.last().name == name {
                Some((rules.len() - 1) as nat)
            } else {
                None
            },
        }
    }
}

/// How walking a trace ends: every request allowed, the index of the first
/// throttled one, or an error for a request that names no rule.
pub enum RunView {
    AllAllowed,
    Throttled(nat),
    Undefined(DiagnosticView),
}

/// The error for a request naming a rule that `rules_path` does not define.
pub open spec fn undefined_rule(e: EntryView, rules_path: Seq<char>) -> DiagnosticView {
    DiagnosticView {
        message: "trace references undefined rule '"@ + e.rule + "'"@,
        offset: e.rule_offset,
        len: e.rule_len,
        help: Some("define 'rule "@ + e.rule + " { ... }' in "@ + rules_path),
        secondary: None,
    }
}

/// The bucket of rule `k`: the one it has, or a fresh one.
pub open spec fn bucket_of(rules: Seq<RuleView>, buckets: Seq<Option<BucketView>>, k: nat) -> BucketView {
    match buckets[k as int] {
        Some(b) => b,
        None => fresh_bucket(rules[k as int]),
    }
}

/// Walks the requests `entries[i..]`, each through the bucket of the rule it
/// names; `buckets` holds the buckets of the rules used so far.
pub open spec fn run_from(
    rules: Seq<RuleView>,
    entries: Seq<EntryView>,
    rules_path: Seq<char>,
    i: nat,
    buckets: Seq<Option<BucketView>>,
) -> RunView
    decreases entries.len() - i,
{
    if i >= entries.len() {
        RunView::AllAllowed
    } else {
        match find_rule(rules, entries[i as int].rule) {
            None => RunView::Undefined(undefined_rule(entries[i as int], rules_path)),
            Some(k) => {
                let (b2, allowed) = admit_step(bucket_of(rules, buckets, k), entries[i as int].at);
                if !allowed {
                    RunView::Throttled(i)
                } else {
                    run_from(rules, entries, rules_path, i + 1, buckets.update(k as int, Some(b2)))
                }
            },
        }
    }
}

/// The first of the requests from `i` on that names a rule that `rules` does
/// not define.
pub open spec fn first_undefined(rules: Seq<RuleView>, entries: Seq<EntryView>, i: nat) -> Option<nat>
    decreases entries.len() - i,
{
    if i >= entries.len() {
        None
    } else if find_rule(rules, entries[i as int].rule) is None {
        Some(i)
    } else {
        first_undefined(rules, entries, i + 1)
    }
}

/// How walking `entries` through the buckets of `rules` ends: a trace that
/// names an undefined rule is rejected before any request runs.
pub open spec fn run_trace_spec(rules: Seq<RuleView>, entries: Seq<EntryView>, rules_path: Seq<char>) -> RunView {
    match first_undefined(rules, entries, 0) {
        Some(i) => RunView::Undefined(undefined_rule(entries[i as int], rules_path)),
        None => run_from(rules, entries, rules_path, 0, Seq::new(rules.len(), |k: int| None)),
    }
}

/// How walking a trace ends.
pub enum TraceRun {
    AllAllowed,
    Throttled { index: usize },
    UndefinedRule(Diagnostic),
}

/// The outcome of a walk, as plain values.
pub open spec fn trace_run_view(r: TraceRun) -> RunView {
    match r {
        TraceRun::AllAllowed => RunView::AllAllowed,
        TraceRun::Throttled { index } => RunView::Throttled(index as nat),
        TraceRun::UndefinedRule(d) => RunView::Undefined(d@),
    }
}

/// Walks a trace through one bucket per rule, in order, and reports the
/// first request that gets throttled, or the first one that names a rule
/// that `rules` does not define (`rules_path` is where they were read).
pub fn run_trace(rules: &Vec<RateLimit>, entries: &Vec<TraceEntry>, rules_path: &str) -> (r: TraceRun)
    ensures
        trace_run_view(r) == run_trace_spec(rule_views(rules@), entry_views(entries@), rules_path@),
{
    let ghost rs = rule_views(rules@);
    let ghost es = entry_views(entries@);
    // every request must name a defined rule before any of them runs
    let mut i: usize = 0;
    while i < entries.len()
        invariant
            i <= entries@.len(),
            rs == rule_views(rules@),
            es == entry_views(entries@),
            first_undefined(rs, es, 0) == first_undefined(rs, es, i as nat),
        decreases entries@.len() - i,
    {
        let entry = &entries[i];
        assert(es[i as int] == entry@);
        if first_rule_named(rules, &entry.rule).is_none() {
            return TraceRun::UndefinedRule(undefined_rule_error(entry, rules_path));
        }
        i = i + 1;
    }
    let mut buckets: Vec<Option<TokenBucket>> = Vec::new();
    let mut k: usize = 0;
    while k < rules.len()
        invariant
            k <= rules@.len(),
            buckets@.len() == k,
            forall|j: int| 0 <= j < k ==> buckets@[j] is None,
        decreases rules@.len() - k,
    {
        buckets.push(None);
        k = k + 1;
    }
    assert(bucket_views(buckets@) =~= Seq::new(rs.len(), |k: int| None::<BucketView>));
    let mut i: usize = 0;
    while i < entries.len()
        invariant
            i <= entries@.len(),
            rs == rule_views(rules@),
            es == entry_views(entries@),
            buckets@.len() == rules@.len(),
            run_trace_spec(rs, es, rules_path@) == run_from(
                rs,
                es,
                rules_path@,
                i as nat,
                bucket_views(buckets@),
            ),
        decreases entries@.len() - i,
    {
        let entry = &entries[i];
        assert(es[i as int] == entry@);
        let k = match first_rule_named(rules, &entry.rule) {
            Some(k) => k,
            None => return TraceRun::UndefinedRule(undefined_rule_error(entry, rules_path)),
        };
        let ghost before = bucket_views(buckets@);
        let mut bucket = match take_bucket(&mut buckets, k) {
            Some(b) => b,
            None => TokenBucket::new(&rules[k]),
        };
        assert(bucket@ == bucket_of(rs, before, k as nat));
        let outcome = bucket.admit_at(entry.at_nanos);
        if !outcome.allowed {
            return TraceRun::Throttled { index: i };
        }
        put_bucket(&mut buckets, k, bucket);
        assert(bucket_views(buckets@) =~= before.update(k as int, Some(bucket@)));
        i = i + 1;
    }
    TraceRun::AllAllowed
}

/// The error for `entry`, which names a rule that `rules_path` does not define.
fn undefined_rule_error(entry: &TraceEntry, rules_path: &str) -> (d: Diagnostic)
    ensures
        d@ == undefined_rule(entry@, rules_path@),
{
    let mut message = String::new();
    message.append("trace references undefined rule '");
    message.append(entry.rule.as_str());
    message.append("'");
    let mut help = String::new();
    help.append("define 'rule ");
    help.append(entry.rule.as_str());
    help.append(" { ... }' in ");
    help.append(rules_path);
    Diagnostic { message, offset: entry.rule_offset, len: entry.rule_len, help: Some(help), secondary: None }
}

/// The buckets, as plain values.
pub open spec fn bucket_views(v: Seq<Option<TokenBucket>>) -> Seq<Option<BucketView>> {
    v.map_values(
        |b: Option<TokenBucket>|
            match b {
                Some(x) => Some(x@),
                None => None,
            },
    )
}

/// Takes the bucket out of slot `k`.
fn take_bucket(buckets: &mut Vec<Option<TokenBucket>>, k: usize) -> (r: Option<TokenBucket>)
    requires
        k < old(buckets)@.len(),
    ensures
        final(buckets)@.len() == old(buckets)@.len(),
        bucket_views(final(buckets)@) == bucket_views(old(buckets)@).update(k as int, None),
        match (r, old(buckets)@[k as int]) {
            (Some(x), Some(y)) => x@ == y@,
            (None, None) => true,
            _ => false,
        },
{
    let mut slot: Option<TokenBucket> = None;
    std::mem::swap(&mut slot, &mut buckets[k]);
    assert(bucket_views(buckets@) =~= bucket_views(old(buckets)@).update(k as int, None));
    slot
}

/// Puts bucket `b` in slot `k`.
fn put_bucket(buckets: &mut Vec<Option<TokenBucket>>, k: usize, b: TokenBucket)
    requires
        k < old(buckets)@.len(),
    ensures
        final(buckets)@.len() == old(buckets)@.len(),
        bucket_views(final(buckets)@) == bucket_views(old(buckets)@).update(k as int, Some(b@)),
{
    let ghost v = b@;
    buckets.set(k, Some(b));
    assert(bucket_views(buckets@) =~= bucket_views(old(buckets)@).update(k as int, Some(v)));
}

/// The index of the first of `rules` named `name`.
fn first_rule_named(rules: &Vec<RateLimit>, name: &String) -> (r: Option<usize>)
    ensures
        match (r, find_rule(rule_views(rules@), name@)) {
            (Some(k), Some(j)) => k as nat == j && k < rules@.len(),
            (None, None) => true,
            _ => false,
        },
{
    let ghost rs = rule_views(rules@);
    let mut i: usize = 0;
    while i < rules.len()
        invariant
            i <= rules@.len(),
            rs == rule_views(rules@),
            find_rule(rs.take(i as int), name@) is None,
        decreases rules@.len() - i,
    {
        assert(rs.take(i + 1).drop_last() =~= rs.take(i as int));
        if rules[i].name == *name {
            proof {
                lemma_find_rule_prefix(rs, (i + 1) as nat, name@);
            }
            return Some(i);
        }
        i = i + 1;
    }
    assert(rs.take(i as int) =~= rs);
    None
}

/// The first rule of a name found in a prefix is the first one overall.
proof fn lemma_find_rule_prefix(rs: Seq<RuleView>, n: nat, name: Seq<char>)
    requires
        n <= rs.len(),
        find_rule(rs.take(n as int), name) is Some,
    ensures
        find_rule(rs, name) == find_rule(rs.take(n as int), name),
    decreases rs.len() - n,
{
    if n < rs.len() {
        assert(rs.take((n + 1) as int).drop_last() =~= rs.take(n as int));
        lemma_find_rule_prefix(rs, n + 1, name);
    } else {
        assert(rs.take(n as int) =~= rs);
    }
}

// ---------------------------------------------------------------------------
// Each rule's bucket sees only that rule's requests
// ---------------------------------------------------------------------------

/// The bucket `b` after requests at `times`.
pub open spec fn bucket_after(b: BucketView, times: Seq<nat>) -> BucketView
    decreases times.len(),
{
    if times.len() == 0 {
        b
    } else {
        bucket_after(admit_step(b, times[0]).0, times.drop_first())
    }
}

/// The times of the requests among the first `n` of `entries` that name
/// rule `k` of `rules`, in order.
pub open spec fn requests_of(rules: Seq<RuleView>, entries: Seq<EntryView>, k: nat, n: nat) -> Seq<nat>
    decreases n,
{
    if n == 0 {
        Seq::empty()
    } else {
        let before = requests_of(rules, entries, k, (n - 1) as nat);
        if find_rule(rules, entries[n - 1].rule) == Some(k) {
            before.push(entries[n - 1].at)
        } else {
            before
        }
    }
}

/// Whether request `i` names a rule that `rules` defines.
pub open spec fn names_rule(rules: Seq<RuleView>, entries: Seq<EntryView>, i: nat) -> bool {
    find_rule(rules, entries[i as int].rule) is Some
}

/// Whether request `i` is allowed by a fresh bucket of the rule it names
/// that has seen only the earlier requests naming that rule.
pub open spec fn allowed_alone(rules: Seq<RuleView>, entries: Seq<EntryView>, i: nat) -> bool {
    match find_rule(rules, entries[i as int].rule) {
        Some(k) => run_bucket(fresh_bucket(rules[k as int]), requests_of(rules, entries, k, i + 1)).last().allowed,
        None => false,
    }
}

/// The outcome of the walk from request `i` on, request by request.
spec fn first_stop(rules: Seq<RuleView>, entries: Seq<EntryView>, rules_path: Seq<char>, i: nat) -> RunView
    decreases entries.len() - i,
{
    if i >= entries.len() {
        RunView::AllAllowed
    } else if !names_rule(rules, entries, i) {
        RunView::Undefined(undefined_rule(entries[i as int], rules_path))
    } else if !allowed_alone(rules, entries, i) {
        RunView::Throttled(i)
    } else {
        first_stop(rules, entries, rules_path, i + 1)
    }
}

/// Appending a request to a run appends its outcome, which the bucket as it
/// stands after the earlier ones decides.
proof fn lemma_run_push(b: BucketView, s: Seq<nat>, t: nat)
    ensures
        run_bucket(b, s).len() == s.len(),
        bucket_after(b, s.push(t)) == admit_step(bucket_after(b, s), t).0,
        run_bucket(b, s.push(t)) == run_bucket(b, s).push(
            OutcomeView {
                allowed: admit_step(bucket_after(b, s), t).1,
                tokens_remaining_units: admit_step(bucket_after(b, s), t).0.tokens,
                units_per_token: admit_step(bucket_after(b, s), t).0.unit,
            },
        ),
    decreases s.len(),
{
    let st = s.push(t);
    if s.len() == 0 {
        assert(st.drop_first() =~= Seq::<nat>::empty());
        assert(st[0] == t);
        assert(bucket_after(b, s) == b);
        assert(run_bucket(b, s) =~= Seq::<OutcomeView>::empty());
        let (b2, allowed) = admit_step(b, t);
        assert(bucket_after(b, st) == bucket_after(b2, st.drop_first()));
        assert(bucket_after(b2, st.drop_first()) == b2);
        assert(run_bucket(b2, st.drop_first()) =~= Seq::<OutcomeView>::empty());
        assert(run_bucket(b, st) =~= seq![
            OutcomeView { allowed, tokens_remaining_units: b2.tokens, units_per_token: b2.unit },
        ]);
    } else {
        let b2 = admit_step(b, s[0]).0;
        assert(st[0] == s[0]);
        assert(st.drop_first() =~= s.drop_first().push(t));
        lemma_run_push(b2, s.drop_first(), t);
        let o = OutcomeView {
            allowed: admit_step(b, s[0]).1,
            tokens_remaining_units: b2.tokens,
            units_per_token: b2.unit,
        };
        assert(bucket_after(b, s) == bucket_after(b2, s.drop_first()));
        assert(bucket_after(b, st) == bucket_after(b2, st.drop_first()));
        assert(run_bucket(b, s) == seq![o] + run_bucket(b2, s.drop_first()));
        assert(run_bucket(b, st) == seq![o] + run_bucket(b2, s.drop_first().push(t)));
        assert(run_bucket(b, st) =~= run_bucket(b, s).push(
            OutcomeView {
                allowed: admit_step(bucket_after(b, s), t).1,
                tokens_remaining_units: admit_step(bucket_after(b, s), t).0.tokens,
                units_per_token: admit_step(bucket_after(b, s), t).0.unit,
            },
        ));
    }
}

/// The rule that `find_rule` finds is one of `rules`, with that name.
proof fn lemma_find_rule_found(rules: Seq<RuleView>, name: Seq<char>)
    ensures
        find_rule(rules, name) matches Some(k) ==> k < rules.len() && rules[k as int].name == name,
    decreases rules.len(),
{
    if rules.len() > 0 {
        lemma_find_rule_found(rules.drop_last(), name);
    }
}

/// The buckets of a walk stand, at request `i`, where each rule's own
/// requests before `i` left a fresh bucket of that rule.
spec fn buckets_follow(
    rules: Seq<RuleView>,
    entries: Seq<EntryView>,
    i: nat,
    buckets: Seq<Option<BucketView>>,
) -> bool {
    &&& buckets.len() == rules.len()
    &&& forall|k: nat|
        k < rules.len() ==> #[trigger] bucket_of(rules, buckets, k) == bucket_after(
            fresh_bucket(rules[k as int]),
            requests_of(rules, entries, k, i),
        )
}

proof fn lemma_run_from(
    rules: Seq<RuleView>,
    entries: Seq<EntryView>,
    rules_path: Seq<char>,
    i: nat,
    buckets: Seq<Option<BucketView>>,
)
    requires
        i <= entries.len(),
        buckets_follow(rules, entries, i, buckets),
    ensures
        run_from(rules, entries, rules_path, i, buckets) == first_stop(rules, entries, rules_path, i),
    decreases entries.len() - i,
{
    if i < entries.len() {
        let e = entries[i as int];
        lemma_find_rule_found(rules, e.rule);
        if let Some(k) = find_rule(rules, e.rule) {
            let fresh = fresh_bucket(rules[k as int]);
            let before = requests_of(rules, entries, k, i);
            assert(requests_of(rules, entries, k, i + 1) == before.push(e.at));
            lemma_run_push(fresh, before, e.at);
            let b = bucket_of(rules, buckets, k);
            assert(b == bucket_after(fresh, before));
            let (b2, allowed) = admit_step(b, e.at);
            assert(allowed_alone(rules, entries, i) == allowed);
            if allowed {
                let nb = buckets.update(k as int, Some(b2));
                assert forall|j: nat| j < rules.len() implies #[trigger] bucket_of(rules, nb, j)
                    == bucket_after(fresh_bucket(rules[j as int]), requests_of(rules, entries, j, i + 1)) by {
                    if j != k {
                        assert(bucket_of(rules, nb, j) == bucket_of(rules, buckets, j));
                        assert(requests_of(rules, entries, j, i + 1) == requests_of(rules, entries, j, i));
                    }
                }
                lemma_run_from(rules, entries, rules_path, i + 1, nb);
            }
        }
    }
}

/// A trace that names an undefined rule is rejected, at the first such
/// request, before any bucket runs. Otherwise a rule's bucket sees only the
/// requests that name that rule: the walk stops at the first request that a
/// fresh bucket of its rule, fed the earlier requests naming that rule,
/// throttles; when there is none, every request is allowed.
pub proof fn lemma_rules_run_independently(
    rules: Seq<RuleView>,
    entries: Seq<EntryView>,
    rules_path: Seq<char>,
)
    ensures
        match run_trace_spec(rules, entries, rules_path) {
            RunView::AllAllowed => forall|j: nat|
                j < entries.len() ==> #[trigger] allowed_alone(rules, entries, j),
            RunView::Throttled(i) => {
                &&& i < entries.len()
                &&& forall|j: nat| j < entries.len() ==> #[trigger] names_rule(rules, entries, j)
                &&& !allowed_alone(rules, entries, i)
                &&& forall|j: nat| j < i ==> #[trigger] allowed_alone(rules, entries, j)
            },
            RunView::Undefined(d) => exists|i: nat|
                {
                    &&& i < entries.len()
                    &&& !names_rule(rules, entries, i)
                    &&& d == undefined_rule(entries[i as int], rules_path)
                    &&& forall|j: nat| j < i ==> #[trigger] names_rule(rules, entries, j)
                },
        },
{
    lemma_first_undefined(rules, entries, 0);
    match first_undefined(rules, entries, 0) {
        Some(s) => {
            assert(!names_rule(rules, entries, s));
        },
        None => {
            let empty = Seq::new(rules.len(), |k: int| None::<BucketView>);
            assert forall|k: nat| k < rules.len() implies #[trigger] bucket_of(rules, empty, k)
                == bucket_after(fresh_bucket(rules[k as int]), requests_of(rules, entries, k, 0)) by {}
            lemma_run_from(rules, entries, rules_path, 0, empty);
            lemma_stop_at(rules, entries, rules_path, 0);
            let s = stop_at(rules, entries, 0);
            if s < entries.len() {
                assert(names_rule(rules, entries, s));
            }
        },
    }
}

proof fn lemma_first_undefined(rules: Seq<RuleView>, entries: Seq<EntryView>, i: nat)
    ensures
        match first_undefined(rules, entries, i) {
            Some(s) => {
                &&& i <= s < entries.len()
                &&& !names_rule(rules, entries, s)
                &&& forall|j: nat| i <= j < s ==> #[trigger] names_rule(rules, entries, j)
            },
            None => forall|j: nat| i <= j < entries.len() ==> #[trigger] names_rule(rules, entries, j),
        },
    decreases entries.len() - i,
{
    if i < entries.len() && names_rule(rules, entries, i) {
        lemma_first_undefined(rules, entries, i + 1);
    }
}

/// The first request from `i` on that names no rule or is throttled, or the
/// number of requests when there is none.
spec fn stop_at(rules: Seq<RuleView>, entries: Seq<EntryView>, i: nat) -> nat
    decreases entries.len() - i,
{
    if i >= entries.len() {
        entries.len()
    } else if !names_rule(rules, entries, i) || !allowed_alone(rules, entries, i) {
        i
    } else {
        stop_at(rules, entries, i + 1)
    }
}

proof fn lemma_stop_at(rules: Seq<RuleView>, entries: Seq<EntryView>, rules_path: Seq<char>, i: nat)
    requires
        i <= entries.len(),
    ensures
        i <= stop_at(rules, entries, i) <= entries.len(),
        forall|j: nat|
            i <= j < stop_at(rules, entries, i) ==> #[trigger] allowed_alone(rules, entries, j),
        first_stop(rules, entries, rules_path, i) == ({
            let s = stop_at(rules, entries, i);
            if s >= entries.len() {
                RunView::AllAllowed
            } else if !names_rule(rules, entries, s) {
                RunView::Undefined(undefined_rule(entries[s as int], rules_path))
            } else {
                RunView::Throttled(s)
            }
        }),
        stop_at(rules, entries, i) < entries.len() ==> !names_rule(rules, entries, stop_at(rules, entries, i))
            || !allowed_alone(rules, entries, stop_at(rules, entries, i)),
    decreases entries.len() - i,
{
    if i < entries.len() && names_rule(rules, entries, i) && allowed_alone(rules, entries, i) {
        lemma_stop_at(rules, entries, rules_path, i + 1);
        assert(stop_at(rules, entries, i) == stop_at(rules, entries, i + 1));
        assert forall|j: nat| i <= j < stop_at(rules, entries, i) implies #[trigger] allowed_alone(
            rules,
            entries,
            j,
        ) by {
            if j > i {
                assert(i + 1 <= j < stop_at(rules, entries, i + 1));
            }
        }
    }
}

} // verus!
