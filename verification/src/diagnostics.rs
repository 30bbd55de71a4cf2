//! Maps byte offsets back to 1-based line/column numbers and renders
//! rustc-style error snippets, so that every parse failure points at an exact
//! spot in the source file.

use vstd::prelude::*;
use vstd::utf8::*;
use vstd::string::StringSliceAdditionalSpecFns;
use crate::text::{
    decimal, decimal_len, lemma_boundary_after_ascii, lemma_spaces_len, lemma_boundary_at_ascii, lemma_str_valid,
    push_decimal, push_repeat, push_spaces, repeat, slice_str, spaces,
};

verus! {

/// The byte value of a line feed.
pub open spec fn is_newline(b: u8) -> bool {
    b == 10
}

/// The number of line feeds in `s`.
pub open spec fn newlines(s: Seq<u8>) -> nat
    decreases s.len(),
{
    if s.len() == 0 {
        0
    } else {
        newlines(s.drop_last()) + if is_newline(s.last()) { 1nat } else { 0nat }
    }
}

/// The offset just past the last line feed of `s`, or 0 when it has none:
/// where the line that `s` ends in begins.
pub open spec fn line_start(s: Seq<u8>) -> nat
    decreases s.len(),
{
    if s.len() == 0 {
        0
    } else if is_newline(s.last()) {
        s.len()
    } else {
        line_start(s.drop_last())
    }
}

/// The offset at which each line of `s` begins: 0, then the offset after
/// each line feed.
pub open spec fn line_starts(s: Seq<u8>) -> Seq<nat>
    decreases s.len(),
{
    if s.len() == 0 {
        seq![0]
    } else if is_newline(s.last()) {
        line_starts(s.drop_last()).push(s.len())
    } else {
        line_starts(s.drop_last())
    }
}

/// The 1-based line and column of byte `offset` in `text`: the line is one
/// more than the number of line feeds before the offset, the column one more
/// than the number of bytes between the start of that line and the offset.
/// An offset past the end counts from the start of the last line.
pub open spec fn line_col(text: Seq<u8>, offset: nat) -> (nat, nat) {
    let k = if offset <= text.len() { offset } else { text.len() };
    let before = text.take(k as int);
    (newlines(before) + 1, (offset - line_start(before) + 1) as nat)
}

/// `s` without its trailing bytes equal to `c`.
pub open spec fn trim_end(s: Seq<u8>, c: u8) -> Seq<u8>
    decreases s.len(),
{
    if s.len() > 0 && s.last() == c {
        trim_end(s.drop_last(), c)
    } else {
        s
    }
}

/// The bytes of line `line` (1-based) of `text`, without its line feed and
/// without the carriage returns that end it.
pub open spec fn line_bytes(text: Seq<u8>, line: nat) -> Seq<u8> {
    let starts = line_starts(text);
    let start = starts[line - 1];
    let end = if line < starts.len() { starts[line as int] } else { text.len() };
    trim_end(trim_end(text.subrange(start as int, end as int), 10), 13)
}

/// A second source location of a diagnostic, as plain values.
pub struct SecondaryView {
    pub message: Seq<char>,
    pub offset: nat,
    pub len: nat,
}

/// A diagnostic as plain values.
pub struct DiagnosticView {
    pub message: Seq<char>,
    pub offset: nat,
    pub len: nat,
    pub help: Option<Seq<char>>,
    pub secondary: Option<SecondaryView>,
}

/// An error at a byte range of a source file: a message, an optional hint
/// and an optional second location.
#[derive(Debug)]
pub struct Diagnostic {
    pub message: String,
    pub offset: usize,
    pub len: usize,
    pub help: Option<String>,
    pub secondary: Option<Secondary>,
}

/// A second source location attached to a diagnostic, e.g. the earlier
/// definition a duplicate clashes with. Rendered as its own snippet
/// after the primary one, same as rustc's "note: ... previous definition
/// here" spans.
#[derive(Debug)]
pub struct Secondary {
    pub message: String,
    pub offset: usize,
    pub len: usize,
}

impl View for Secondary {
    type V = SecondaryView;

    open spec fn view(&self) -> SecondaryView {
        SecondaryView { message: self.message@, offset: self.offset as nat, len: self.len as nat }
    }
}

impl View for Diagnostic {
    type V = DiagnosticView;

    open spec fn view(&self) -> DiagnosticView {
        DiagnosticView {
            message: self.message@,
            offset: self.offset as nat,
            len: self.len as nat,
            help: match self.help {
                Some(h) => Some(h@),
                None => None,
            },
            secondary: match self.secondary {
                Some(s) => Some(s@),
                None => None,
            },
        }
    }
}

/// The larger of `n` and 1.
pub open spec fn at_least_one(n: nat) -> nat {
    if n == 0 {
        1
    } else {
        n
    }
}

/// The snippet for the byte range at `offset` of length `len`: the location,
/// the source line itself and a caret under the range.
pub open spec fn span_text(file: Seq<char>, text: Seq<u8>, offset: nat, len: nat) -> Seq<char> {
    let (line, col) = line_col(text, offset);
    let gutter = decimal(line);
    let pad = spaces(gutter.len());
    pad + "--> "@ + file + ":"@ + gutter + ":"@ + decimal(col) + "\n"@
        + pad + " |\n"@
        + gutter + " | "@ + decode_utf8(line_bytes(text, line)) + "\n"@
        + pad + " | "@ + spaces((col - 1) as nat) + repeat("^"@, at_least_one(len)) + "\n"@
}

/// The rendering of diagnostic `d` for the file named `file` with contents
/// `text`: the message, its snippet, the hint and the second location.
pub open spec fn rendered(d: DiagnosticView, file: Seq<char>, text: Seq<u8>) -> Seq<char> {
    let head = "error: "@ + d.message + "\n"@ + span_text(file, text, d.offset, d.len);
    let with_help = match d.help {
        Some(h) => head + spaces(decimal(line_col(text, d.offset).0).len()) + " = help: "@ + h
            + "\n"@,
        None => head,
    };
    match d.secondary {
        Some(s) => with_help + "note: "@ + s.message + "\n"@ + span_text(file, text, s.offset, s.len),
        None => with_help,
    }
}

impl Diagnostic {
    /// Renders the diagnostic as rustc does: message, exact source location,
    /// the source line and a caret under the offending range, then the hint
    /// and the second location.
    pub fn render(&self, file_name: &str, map: &SourceMap) -> (r: String)
        requires
            line_col(map.source(), self.offset as nat).1 <= usize::MAX,
            self.secondary matches Some(s) ==> line_col(map.source(), s.offset as nat).1 <= usize::MAX,
        ensures
            r@ == rendered(self@, file_name@, map.source()),
    {
        let mut out = String::new();
        out.append("error: ");
        out.append(self.message.as_str());
        out.append("\n");
        let span = render_span(file_name, map, self.offset, self.len);
        out.append(span.as_str());
        let ghost head = out@;
        assert(head =~= "error: "@ + self@.message + "\n"@ + span_text(
            file_name@,
            map.source(),
            self.offset as nat,
            self.len as nat,
        ));
        match &self.help {
            Some(help) => {
                let (line, _) = map.line_col(self.offset);
                let gutter_width = decimal_len(line as u128);
                push_spaces(&mut out, gutter_width);
                out.append(" = help: ");
                out.append(help.as_str());
                out.append("\n");
            },
            None => {},
        }
        let ghost with_help = out@;
        match &self.secondary {
            Some(secondary) => {
                out.append("note: ");
                out.append(secondary.message.as_str());
                out.append("\n");
                let span = render_span(file_name, map, secondary.offset, secondary.len);
                out.append(span.as_str());
            },
            None => {},
        }
        out
    }
}

fn render_span(file_name: &str, map: &SourceMap, offset: usize, len: usize) -> (r: String)
    requires
        line_col(map.source(), offset as nat).1 <= usize::MAX,
    ensures
        r@ == span_text(file_name@, map.source(), offset as nat, len as nat),
{
    let (line, col) = map.line_col(offset);
    proof {
        map.lemma_line_in_range(offset as nat);
    }
    let line_text = map.line_text(line);
    let gutter_width = decimal_len(line as u128);
    let caret_indent = col - 1;
    let carets = if len > 1 {
        len
    } else {
        1
    };
    let mut out = String::new();
    push_spaces(&mut out, gutter_width);
    out.append("--> ");
    out.append(file_name);
    out.append(":");
    push_decimal(&mut out, line as u128);
    out.append(":");
    push_decimal(&mut out, col as u128);
    out.append("\n");
    push_spaces(&mut out, gutter_width);
    out.append(" |\n");
    push_decimal(&mut out, line as u128);
    out.append(" | ");
    out.append(line_text);
    out.append("\n");
    push_spaces(&mut out, gutter_width);
    out.append(" | ");
    push_spaces(&mut out, caret_indent);
    push_repeat(&mut out, "^", carets);
    out.append("\n");
    out
}

/// Precomputes line start offsets once so repeated offset -> (line, col)
/// lookups during error reporting are cheap and don't rescan the file.
pub struct SourceMap<'a> {
    text: &'a str,
    line_starts: Vec<usize>,
}

/// The offsets of a vector, as natural numbers.
pub open spec fn as_nats(v: Seq<usize>) -> Seq<nat> {
    v.map_values(|x: usize| x as nat)
}

impl<'a> SourceMap<'a> {
    #[verifier::type_invariant]
    spec fn inv(self) -> bool {
        as_nats(self.line_starts@) == line_starts(self.text.spec_bytes())
    }

    /// The bytes of the mapped text.
    pub closed spec fn source(&self) -> Seq<u8> {
        self.text.spec_bytes()
    }

    /// Builds the map of `text`.
    pub fn new(text: &'a str) -> (m: Self)
        ensures
            m.source() == text.spec_bytes(),
    {
        let bytes = text.as_bytes();
        let mut starts: Vec<usize> = Vec::new();
        starts.push(0);
        let mut i: usize = 0;
        assert(as_nats(starts@) =~= line_starts(bytes@.take(0)));
        while i < bytes.len()
            invariant
                i <= bytes@.len(),
                bytes@ == text.spec_bytes(),
                as_nats(starts@) == line_starts(bytes@.take(i as int)),
            decreases bytes@.len() - i,
        {
            assert(bytes@.take(i + 1).drop_last() =~= bytes@.take(i as int));
            if bytes[i] == 10u8 {
                starts.push(i + 1);
            }
            i = i + 1;
            assert(as_nats(starts@) =~= line_starts(bytes@.take(i as int)));
        }
        assert(bytes@.take(i as int) =~= bytes@);
        SourceMap { text, line_starts: starts }
    }

    /// The line of any offset is a line of the text.
    pub proof fn lemma_line_in_range(&self, offset: nat)
        ensures
            1 <= line_col(self.source(), offset).0 <= line_starts(self.source()).len(),
            line_col(self.source(), offset).1 >= 1,
    {
        let text = self.source();
        let k = if offset <= text.len() { offset } else { text.len() };
        lemma_line_index(text, k);
    }

    /// The 1-based line and column of `byte_offset`, whose column must fit
    /// in a `usize`.
    pub fn line_col(&self, byte_offset: usize) -> (r: (usize, usize))
        requires
            line_col(self.source(), byte_offset as nat).1 <= usize::MAX,
        ensures
            (r.0 as nat, r.1 as nat) == line_col(self.source(), byte_offset as nat),
    {
        proof {
            use_type_invariant(self);
        }
        let ghost text = self.source();
        let ghost k: nat = if byte_offset <= text.len() { byte_offset as nat } else { text.len() };
        proof {
            lemma_line_index(text, k);
            lemma_line_starts_sorted(text);
            let v = self.line_starts@;
            assert(as_nats(v)[0] == v[0]);
            assert forall|i: int, j: int| 0 <= i < j < v.len() implies v[i] < v[j] by {
                assert(as_nats(v)[i] == v[i]);
                assert(as_nats(v)[j] == v[j]);
            }
        }
        let idx = last_at_most(&self.line_starts, byte_offset);
        proof {
            let n = newlines(text.take(k as int));
            let starts = line_starts(text);
            assert(starts[idx as int] == self.line_starts@[idx as int]);
            if idx + 1 < starts.len() {
                assert(starts[idx + 1] == self.line_starts@[idx + 1]);
            }
            // `idx` and `n` are both the last start at or before the offset
            if (idx as int) < n {
                assert(starts[idx + 1] <= starts[n as int]);
            } else if (idx as int) > n {
                assert(starts[n as int + 1] <= starts[idx as int]);
            }
        }
        let col = byte_offset - self.line_starts[idx];
        let len = self.line_starts.len();
        assert(idx < len);
        (idx + 1, col + 1)
    }

    /// The text of line `line` (1-based), without its line break.
    pub fn line_text(&self, line: usize) -> (r: &'a str)
        requires
            1 <= line <= line_starts(self.source()).len(),
        ensures
            r.spec_bytes() == line_bytes(self.source(), line as nat),
            r@ == decode_utf8(line_bytes(self.source(), line as nat)),
    {
        proof {
            use_type_invariant(self);
            lemma_line_starts_sorted(self.source());
            lemma_str_valid(self.text);
        }
        let ghost text = self.source();
        let ghost starts = line_starts(text);
        let bytes = self.text.as_bytes();
        let start = self.line_starts[line - 1];
        assert(start as nat == starts[line - 1]);
        let end = if line < self.line_starts.len() {
            assert(self.line_starts@[line as int] as nat == starts[line as int]);
            self.line_starts[line]
        } else {
            bytes.len()
        };
        let mut stop = end;
        while stop > start && bytes[stop - 1] == 10u8
            invariant
                start <= stop <= end <= bytes@.len(),
                bytes@ == text,
                trim_end(text.subrange(start as int, end as int), 10) == trim_end(
                    text.subrange(start as int, stop as int),
                    10,
                ),
                forall|i: int| stop <= i < end ==> text[i] == 10 || text[i] == 13,
            decreases stop,
        {
            assert(text.subrange(start as int, stop as int).drop_last() =~= text.subrange(
                start as int,
                stop - 1,
            ));
            stop = stop - 1;
        }
        let ghost no_lf = text.subrange(start as int, stop as int);
        assert(trim_end(no_lf, 10) == no_lf);
        while stop > start && bytes[stop - 1] == 13u8
            invariant
                start <= stop <= end <= bytes@.len(),
                bytes@ == text,
                trim_end(no_lf, 13) == trim_end(text.subrange(start as int, stop as int), 13),
                forall|i: int| stop <= i < end ==> text[i] == 10 || text[i] == 13,
            decreases stop,
        {
            assert(text.subrange(start as int, stop as int).drop_last() =~= text.subrange(
                start as int,
                stop - 1,
            ));
            stop = stop - 1;
        }
        proof {
            let s = text.subrange(start as int, stop as int);
            assert(trim_end(s, 13) == s);
            lemma_line_boundaries(text, line as nat);
            is_char_boundary_start_end_of_seq(text);
            if start > 0 {
                lemma_boundary_after_ascii(text, start as int);
            }
            if stop < end {
                lemma_boundary_at_ascii(text, stop as int);
            } else if stop < text.len() {
                lemma_boundary_after_ascii(text, stop as int);
            }
        }
        slice_str(self.text, start, stop)
    }
}

/// The index of the last element of `v` that is at most `x`.
fn last_at_most(v: &Vec<usize>, x: usize) -> (r: usize)
    requires
        v@.len() >= 1,
        v@[0] <= x,
        forall|i: int, j: int| 0 <= i < j < v@.len() ==> v@[i] < v@[j],
    ensures
        r < v@.len(),
        v@[r as int] <= x,
        r + 1 < v@.len() ==> x < v@[r + 1],
{
    let mut lo: usize = 0;
    let mut hi: usize = v.len();
    while lo + 1 < hi
        invariant
            lo < hi <= v@.len(),
            v@[lo as int] <= x,
            hi < v@.len() ==> x < v@[hi as int],
            forall|i: int, j: int| 0 <= i < j < v@.len() ==> v@[i] < v@[j],
        decreases hi - lo,
    {
        let mid = lo + (hi - lo) / 2;
        if v[mid] <= x {
            lo = mid;
        } else {
            hi = mid;
        }
    }
    lo
}

/// A line and column point back at the offset they were computed from: the
/// line begins `col - 1` bytes before it, and the next line begins after it.
pub proof fn lemma_line_col_points_back(text: Seq<u8>, offset: nat)
    requires
        offset <= text.len(),
    ensures
        ({
            let (line, col) = line_col(text, offset);
            let starts = line_starts(text);
            &&& 1 <= line <= starts.len()
            &&& col >= 1
            &&& starts[line - 1] + col - 1 == offset
            &&& (line < starts.len() ==> offset < starts[line as int])
        }),
{
    lemma_line_index(text, offset);
}

/// Later offsets are on the same line or a later one, and on the same line
/// at the same column or a later one; offsets past the end count on the
/// last line.
pub proof fn lemma_line_col_monotone(text: Seq<u8>, o1: nat, o2: nat)
    requires
        o1 <= o2,
    ensures
        line_col(text, o1).0 <= line_col(text, o2).0,
        line_col(text, o1).0 == line_col(text, o2).0 ==> line_col(text, o1).1 <= line_col(text, o2).1,
{
    let k1: nat = if o1 <= text.len() { o1 } else { text.len() };
    let k2: nat = if o2 <= text.len() { o2 } else { text.len() };
    lemma_line_index(text, k1);
    lemma_line_index(text, k2);
    lemma_line_starts_sorted(text);
    let starts = line_starts(text);
    let n1 = newlines(text.take(k1 as int));
    let n2 = newlines(text.take(k2 as int));
    if n1 > n2 {
        assert(starts[n2 + 1 as int] <= starts[n1 as int]);
    }
}

/// A line of the text is the bytes between a line start (the start of the
/// text or just after a line feed) and the next line feed (or the end of
/// the text), without the carriage returns that end it.
pub proof fn lemma_line_is_segment(text: Seq<u8>, line: nat)
    requires
        1 <= line <= line_starts(text).len(),
    ensures
        ({
            let starts = line_starts(text);
            let start = starts[line - 1];
            let stop: nat = if line < starts.len() { (starts[line as int] - 1) as nat } else { text.len() };
            &&& start <= stop <= text.len()
            &&& start == 0 || text[start - 1] == 10
            &&& stop == text.len() || text[stop as int] == 10
            &&& forall|i: int| start <= i < stop ==> #[trigger] text[i] != 10
            &&& line_bytes(text, line) == trim_end(text.subrange(start as int, stop as int), 13)
        }),
{
    lemma_line_starts_sorted(text);
    lemma_line_boundaries(text, line);
    let starts = line_starts(text);
    let start = starts[line - 1];
    let end: nat = if line < starts.len() { starts[line as int] } else { text.len() };
    let stop: nat = if line < starts.len() { (starts[line as int] - 1) as nat } else { text.len() };
    assert forall|i: int| start <= i < stop implies #[trigger] text[i] != 10 by {
        lemma_line_index(text, i as nat);
        let n = newlines(text.take(i));
        if n < line - 1 {
            assert(starts[n + 1 as int] <= starts[line - 1]);
        } else if n > line - 1 {
            assert(starts[line as int] <= starts[n as int]);
        }
        if text[i] == 10 {
            assert(text.take(i + 1).drop_last() =~= text.take(i));
            lemma_line_index(text, (i + 1) as nat);
            assert(newlines(text.take(i + 1)) == n + 1);
        }
    }
    let seg = text.subrange(start as int, end as int);
    let body = text.subrange(start as int, stop as int);
    if line < starts.len() {
        assert(seg.drop_last() =~= body);
        assert(seg.last() == 10);
    } else {
        assert(seg =~= body);
    }
    lemma_trim_lf_once(seg, body, line < starts.len());
}

proof fn lemma_trim_lf_once(seg: Seq<u8>, body: Seq<u8>, ends_in_lf: bool)
    requires
        forall|i: int| 0 <= i < body.len() ==> #[trigger] body[i] != 10,
        ends_in_lf ==> seg.len() >= 1 && seg.last() == 10 && seg.drop_last() == body,
        !ends_in_lf ==> seg == body,
    ensures
        trim_end(trim_end(seg, 10), 13) == trim_end(body, 13),
{
    assert(trim_end(body, 10) == body) by {
        if body.len() > 0 {
            assert(body.last() != 10);
        }
    }
}

/// In a snippet, the source line and the caret line begin with prefixes of
/// one length, and the caret is indented by the number of bytes of the line
/// before the offset.
pub proof fn lemma_caret_under_offset(file: Seq<char>, text: Seq<u8>, offset: nat, len: nat)
    requires
        offset <= text.len(),
    ensures
        ({
            let (line, col) = line_col(text, offset);
            let gutter = decimal(line);
            let pad = spaces(gutter.len());
            &&& pad.len() == gutter.len()
            &&& line_starts(text)[line - 1] + (col - 1) == offset
            &&& span_text(file, text, offset, len) == pad + "--> "@ + file + ":"@ + gutter + ":"@
                + decimal(col) + "\n"@ + pad + " |\n"@ + gutter + " | "@ + decode_utf8(line_bytes(text, line))
                + "\n"@ + pad + " | "@ + spaces((col - 1) as nat) + repeat("^"@, at_least_one(len))
                + "\n"@
        }),
{
    lemma_line_col_points_back(text, offset);
    let (line, col) = line_col(text, offset);
    lemma_spaces_len(decimal(line).len());
}

/// Line starts begin at 0, increase strictly and stay within the text.
pub proof fn lemma_line_starts_sorted(s: Seq<u8>)
    ensures
        line_starts(s).len() >= 1,
        line_starts(s)[0] == 0,
        forall|i: int, j: int|
            0 <= i < j < line_starts(s).len() ==> line_starts(s)[i] < line_starts(s)[j],
        forall|i: int| 0 <= i < line_starts(s).len() ==> line_starts(s)[i] <= s.len(),
        line_starts(s).len() == newlines(s) + 1,
        line_starts(s).last() == line_start(s),
    decreases s.len(),
{
    if s.len() > 0 {
        lemma_line_starts_sorted(s.drop_last());
    }
}

/// Before offset `k`, the last line start at or before `k` is entry
/// `newlines(text[..k])` of the line starts.
pub proof fn lemma_line_index(text: Seq<u8>, k: nat)
    requires
        k <= text.len(),
    ensures
        ({
            let n = newlines(text.take(k as int));
            let starts = line_starts(text);
            &&& n < starts.len()
            &&& starts[n as int] == line_start(text.take(k as int))
            &&& starts[n as int] <= k
            &&& (n + 1 < starts.len() ==> starts[n as int + 1] > k)
        }),
    decreases text.len(),
{
    lemma_line_starts_sorted(text);
    lemma_line_starts_sorted(text.take(k as int));
    if k == text.len() {
        assert(text.take(k as int) =~= text);
    } else {
        let t = text.drop_last();
        assert(text.take(k as int) =~= t.take(k as int));
        lemma_line_index(t, k);
        lemma_line_starts_sorted(t);
    }
}

/// Line starts other than 0 follow a line feed, and a line that is not the
/// last ends where the next begins, right after a line feed.
pub proof fn lemma_line_boundaries(text: Seq<u8>, line: nat)
    requires
        1 <= line <= line_starts(text).len(),
    ensures
        line_starts(text)[line - 1] == 0 || (line_starts(text)[line - 1] >= 1 && text[line_starts(
            text,
        )[line - 1] - 1] == 10),
        line < line_starts(text).len() ==> line_starts(text)[line as int] >= 1 && text[line_starts(
            text,
        )[line as int] - 1] == 10,
    decreases text.len(),
{
    lemma_line_starts_sorted(text);
    if text.len() > 0 {
        let t = text.drop_last();
        lemma_line_starts_sorted(t);
        if line <= line_starts(t).len() {
            lemma_line_boundaries(t, line);
        }
        if line - 1 < line_starts(t).len() && line >= 1 && line > 1 {
            lemma_line_boundaries(t, (line - 1) as nat);
        }
    }
}

} // verus!
