//! Parser for the .rl rules format:
//!
//!   rule <name> {
//!       rate = <count>/<sec|min|hour>
//!       burst = <count>
//!   }
//!
//! Hand-written lexer + recursive descent parser, both tracking byte
//! offsets, so every failure can be reported with an exact line/column
//! and a source snippet via `Diagnostic`.
//!
//! A number token's value comes from a table of readings, one per number
//! text, that the caller hands in: whether it is a whole number from 0 to
//! `u32::MAX`, and how an error shows it. `number_texts` lists the texts the
//! table needs, and `lemma_rules_read_number_texts` shows that nothing else
//! of the table matters.

use vstd::prelude::*;
use vstd::utf8::*;
use vstd::string::StringSliceAdditionalSpecFns;
use crate::diagnostics::{Diagnostic, DiagnosticView, at_least_one};
use crate::text::{
    lemma_boundary_after_ascii, lemma_boundary_at_ascii, lemma_str_decode, lemma_str_valid,
    push_char, slice_str, str_eq,
};
use vstd::string::StringExecFns;

verus! {

// ---------------------------------------------------------------------------
// Characters and numbers
// ---------------------------------------------------------------------------

/// Space, tab, carriage return or line feed.
pub open spec fn is_space(c: u8) -> bool {
    c == 32 || c == 9 || c == 13 || c == 10
}

/// An ASCII decimal digit.
pub open spec fn is_digit(c: u8) -> bool {
    48 <= c <= 57
}

/// A byte that can start an identifier: an ASCII letter or `_`.
pub open spec fn is_ident_start(c: u8) -> bool {
    (97 <= c <= 122) || (65 <= c <= 90) || c == 95
}

/// A byte that can continue an identifier.
pub open spec fn is_ident_char(c: u8) -> bool {
    is_ident_start(c) || is_digit(c)
}

// ---------------------------------------------------------------------------
// Tokens
// ---------------------------------------------------------------------------

/// A token's kind, as plain values. A number carries its value when it is a
/// whole number that fits in a `u32`, and its decimal text.
pub enum Tok {
    Ident(Seq<char>),
    Number { whole: Option<u32>, shown: Seq<char> },
    Slash,
    Equals,
    LBrace,
    RBrace,
    Eof,
}

/// A token as plain values: its kind and its byte range.
pub struct TokenView {
    pub kind: Tok,
    pub offset: nat,
    pub len: nat,
}

/// Where a token ends.
pub open spec fn tok_end(t: TokenView) -> nat {
    t.offset + t.len
}

/// The position after blanks and `#` comments from `p` on; `in_comment`
/// tells that `p` is inside a comment.
pub open spec fn skip_trivia(b: Seq<u8>, p: nat, in_comment: bool) -> nat
    decreases b.len() - p,
{
    if p >= b.len() {
        p
    } else if in_comment {
        skip_trivia(b, p + 1, b[p as int] != 10)
    } else if is_space(b[p as int]) {
        skip_trivia(b, p + 1, false)
    } else if b[p as int] == 35 {
        skip_trivia(b, p + 1, true)
    } else {
        p
    }
}

/// The end of the run of digits starting at `p`.
pub open spec fn digits_end(b: Seq<u8>, p: nat) -> nat
    decreases b.len() - p,
{
    if p < b.len() && is_digit(b[p as int]) {
        digits_end(b, p + 1)
    } else {
        p
    }
}

/// The end of the run of identifier bytes starting at `p`.
pub open spec fn ident_end(b: Seq<u8>, p: nat) -> nat
    decreases b.len() - p,
{
    if p < b.len() && is_ident_char(b[p as int]) {
        ident_end(b, p + 1)
    } else {
        p
    }
}

/// The text of the bytes `start..end` of `b`.
pub open spec fn text_of(b: Seq<u8>, start: nat, end: nat) -> Seq<char> {
    decode_utf8(b.subrange(start as int, end as int))
}

/// A diagnostic with no second location.
pub open spec fn diag(message: Seq<char>, offset: nat, len: nat, help: Option<Seq<char>>) -> DiagnosticView {
    DiagnosticView { message, offset, len, help, secondary: None }
}

/// What a number's text reads as: its value when that is a whole number
/// from 0 to `u32::MAX`, and how an error shows the number.
pub struct NumberView {
    pub whole: Option<u32>,
    pub shown: Seq<char>,
}

/// The reading of the number text `text` in the table `nums` of texts and
/// their readings: the first entry for that text, or, when there is none,
/// no whole value and the text itself.
pub open spec fn number_reading(nums: Seq<(Seq<char>, NumberView)>, text: Seq<char>) -> NumberView
    decreases nums.len(),
{
    if nums.len() == 0 {
        NumberView { whole: None, shown: text }
    } else if nums[0].0 == text {
        nums[0].1
    } else {
        number_reading(nums.drop_first(), text)
    }
}

/// Where the number that starts at `s` (a digit) ends: digits, then
/// optionally a point and more digits.
pub open spec fn number_end(b: Seq<u8>, s: nat) -> nat {
    let e = digits_end(b, s);
    if e < b.len() && b[e as int] == 46 {
        digits_end(b, e + 1)
    } else {
        e
    }
}

/// The number token that starts at `s` (a digit), read through `nums`.
pub open spec fn number_at(b: Seq<u8>, nums: Seq<(Seq<char>, NumberView)>, s: nat) -> TokenView {
    let end = number_end(b, s);
    let v = number_reading(nums, text_of(b, s, end));
    TokenView { kind: Tok::Number { whole: v.whole, shown: v.shown }, offset: s, len: (end - s) as nat }
}

/// The token that the lexer reads from position `p` of `b`, or the error for
/// a byte that starts no token.
#[verifier::opaque]
pub open spec fn lex(b: Seq<u8>, nums: Seq<(Seq<char>, NumberView)>, p: nat) -> Result<TokenView, DiagnosticView> {
    let s = skip_trivia(b, p, false);
    if s >= b.len() {
        Ok(TokenView { kind: Tok::Eof, offset: s, len: 0 })
    } else {
        let c = b[s as int];
        if c == 123 {
            Ok(TokenView { kind: Tok::LBrace, offset: s, len: 1 })
        } else if c == 125 {
            Ok(TokenView { kind: Tok::RBrace, offset: s, len: 1 })
        } else if c == 61 {
            Ok(TokenView { kind: Tok::Equals, offset: s, len: 1 })
        } else if c == 47 {
            Ok(TokenView { kind: Tok::Slash, offset: s, len: 1 })
        } else if is_digit(c) {
            Ok(number_at(b, nums, s))
        } else if is_ident_start(c) {
            let e = ident_end(b, s);
            Ok(TokenView { kind: Tok::Ident(text_of(b, s, e)), offset: s, len: (e - s) as nat })
        } else {
            Err(diag("unexpected character '"@ + seq![c as char] + "'"@, s, 1, None))
        }
    }
}

/// What the parser says of a token in an error.
pub open spec fn described(k: Tok) -> Seq<char> {
    match k {
        Tok::Ident(s) => "identifier '"@ + s + "'"@,
        Tok::Number { shown, .. } => "number '"@ + shown + "'"@,
        Tok::Slash => "'/'"@,
        Tok::Equals => "'='"@,
        Tok::LBrace => "'{'"@,
        Tok::RBrace => "'}'"@,
        Tok::Eof => "end of file"@,
    }
}

proof fn lemma_skip_trivia(b: Seq<u8>, p: nat, c: bool)
    requires
        p <= b.len(),
    ensures
        p <= skip_trivia(b, p, c) <= b.len(),
        skip_trivia(b, p, c) < b.len() ==> {
            let s = skip_trivia(b, p, c);
            !is_space(b[s as int]) && b[s as int] != 35
        },
    decreases b.len() - p,
{
    if p < b.len() {
        if c {
            lemma_skip_trivia(b, p + 1, b[p as int] != 10);
        } else if is_space(b[p as int]) || b[p as int] == 35 {
            lemma_skip_trivia(b, p + 1, b[p as int] == 35);
        }
    }
}

pub proof fn lemma_digits_end(b: Seq<u8>, p: nat)
    requires
        p <= b.len(),
    ensures
        p <= digits_end(b, p) <= b.len(),
        forall|i: int| p <= i < digits_end(b, p) ==> is_digit(#[trigger] b[i]),
        digits_end(b, p) < b.len() ==> !is_digit(b[digits_end(b, p) as int]),
    decreases b.len() - p,
{
    if p < b.len() && is_digit(b[p as int]) {
        lemma_digits_end(b, p + 1);
    }
}

proof fn lemma_ident_end(b: Seq<u8>, p: nat)
    requires
        p <= b.len(),
    ensures
        p <= ident_end(b, p) <= b.len(),
        forall|i: int| p <= i < ident_end(b, p) ==> is_ident_char(#[trigger] b[i]),
        ident_end(b, p) < b.len() ==> !is_ident_char(b[ident_end(b, p) as int]),
    decreases b.len() - p,
{
    if p < b.len() && is_ident_char(b[p as int]) {
        lemma_ident_end(b, p + 1);
    }
}

/// Byte `i` of `b` is inside a `#` comment that starts at or after `lo`: a
/// `#` stands at some `j` from `lo` to `i`, with no line feed from `j` to `i`.
pub open spec fn in_comment_at(b: Seq<u8>, lo: nat, i: nat) -> bool {
    exists|j: nat|
        #![trigger b[j as int]]
        lo <= j <= i && b[j as int] == 35 && forall|k: nat| j <= k <= i ==> #[trigger] b[k as int] != 10
}

/// The bytes `p..q` of `b` are blanks and `#` comments only.
pub open spec fn trivia_between(b: Seq<u8>, p: nat, q: nat) -> bool {
    forall|i: nat| p <= i < q ==> is_space(#[trigger] b[i as int]) || in_comment_at(b, p, i)
}

proof fn lemma_trivia_from(b: Seq<u8>, lo: nat, p: nat, c: bool, j0: nat)
    requires
        lo <= p <= b.len(),
        c ==> lo <= j0 <= p && j0 < b.len() && b[j0 as int] == 35 && forall|k: nat|
            j0 <= k < p ==> #[trigger] b[k as int] != 10,
    ensures
        forall|i: nat|
            p <= i < skip_trivia(b, p, c) ==> is_space(#[trigger] b[i as int]) || in_comment_at(b, lo, i),
    decreases b.len() - p,
{
    if p < b.len() {
        if c {
            if b[p as int] != 10 {
                assert(forall|k: nat| j0 <= k <= p ==> #[trigger] b[k as int] != 10);
                assert(in_comment_at(b, lo, p));
            }
            lemma_trivia_from(b, lo, p + 1, b[p as int] != 10, j0);
        } else if is_space(b[p as int]) {
            lemma_trivia_from(b, lo, p + 1, false, j0);
        } else if b[p as int] == 35 {
            assert(forall|k: nat| p <= k <= p ==> #[trigger] b[k as int] != 10);
            assert(in_comment_at(b, lo, p));
            lemma_trivia_from(b, lo, p + 1, true, p);
        }
    }
}

/// Skipping blanks and comments passes over blanks and comments only, stops
/// at the end of the text or at a byte that is neither, and skipping again
/// from there stays put.
pub proof fn lemma_skip_trivia_law(b: Seq<u8>, p: nat)
    requires
        p <= b.len(),
    ensures
        p <= skip_trivia(b, p, false) <= b.len(),
        trivia_between(b, p, skip_trivia(b, p, false)),
        skip_trivia(b, p, false) < b.len() ==> !is_space(b[skip_trivia(b, p, false) as int]) && b[skip_trivia(
            b,
            p,
            false,
        ) as int] != 35,
        skip_trivia(b, skip_trivia(b, p, false), false) == skip_trivia(b, p, false),
{
    lemma_skip_trivia(b, p, false);
    lemma_trivia_from(b, p, p, false, 0);
}

/// A token stands after blanks and comments only, within the text, and its
/// bytes are its kind: the end of file stands at the end; `{`, `}`, `=` and
/// `/` are that byte; an identifier's text is its bytes, which are letters,
/// digits and `_` starting with a letter or `_`; a number's bytes are digits
/// and a point.
pub proof fn lemma_token_text(b: Seq<u8>, nums: Seq<(Seq<char>, NumberView)>, p: nat)
    requires
        p <= b.len(),
    ensures
        lex(b, nums, p) matches Ok(t) ==> {
            &&& t.offset == skip_trivia(b, p, false)
            &&& trivia_between(b, p, t.offset)
            &&& tok_end(t) <= b.len()
            &&& (t.kind is Eof <==> t.offset == b.len())
            &&& (t.kind is Eof ==> t.len == 0)
            &&& (t.kind is LBrace ==> t.len == 1 && b[t.offset as int] == 123)
            &&& (t.kind is RBrace ==> t.len == 1 && b[t.offset as int] == 125)
            &&& (t.kind is Equals ==> t.len == 1 && b[t.offset as int] == 61)
            &&& (t.kind is Slash ==> t.len == 1 && b[t.offset as int] == 47)
            &&& (t.kind matches Tok::Ident(name) ==> {
                &&& name == text_of(b, t.offset, tok_end(t))
                &&& t.len >= 1
                &&& is_ident_start(b[t.offset as int])
                &&& forall|i: int| t.offset <= i < tok_end(t) ==> is_ident_char(#[trigger] b[i])
            })
            &&& (t.kind is Number ==> t.len >= 1 && forall|i: int|
                t.offset <= i < tok_end(t) ==> is_digit(#[trigger] b[i]) || b[i] == 46)
        },
{
    reveal(lex);
    lemma_skip_trivia_law(b, p);
    lemma_lex_bounds(b, nums, p);
    let s = skip_trivia(b, p, false);
    if s < b.len() {
        lemma_digits_end(b, s);
        lemma_ident_end(b, s);
        let e = digits_end(b, s);
        if e < b.len() && b[e as int] == 46 {
            lemma_digits_end(b, e + 1);
        }
    }
}

/// ASCII letters, digits and `_`, written out byte by byte.
pub open spec fn ascii_word_byte(c: u8) -> bool {
    (65 <= c <= 90) || (97 <= c <= 122) || (48 <= c <= 57) || c == 95
}

/// An identifier is as long as it can be: it starts with an ASCII letter or
/// `_`, every byte in it is an ASCII letter, digit or `_`, and the byte
/// after it, if any, is none of these. In particular a digit after a letter
/// stays in the identifier. And a token that starts with a letter or `_` is
/// an identifier.
pub proof fn lemma_identifier_is_maximal(b: Seq<u8>, nums: Seq<(Seq<char>, NumberView)>, p: nat)
    requires
        p <= b.len(),
    ensures
        lex(b, nums, p) matches Ok(t) ==> (t.kind is Ident ==> {
            &&& t.len >= 1
            &&& ((65 <= b[t.offset as int] <= 90) || (97 <= b[t.offset as int] <= 122) || b[t.offset as int] == 95)
            &&& forall|i: int| t.offset <= i < tok_end(t) ==> ascii_word_byte(#[trigger] b[i])
            &&& (tok_end(t) < b.len() ==> !ascii_word_byte(b[tok_end(t) as int]))
        }),
        lex(b, nums, p) matches Ok(t) ==> (t.offset < b.len() && ((65 <= b[t.offset as int] <= 90) || (97
            <= b[t.offset as int] <= 122) || b[t.offset as int] == 95) ==> t.kind is Ident),
{
    reveal(lex);
    lemma_skip_trivia(b, p, false);
    let s = skip_trivia(b, p, false);
    if s < b.len() {
        lemma_ident_end(b, s);
        let e = ident_end(b, s);
        assert forall|i: int| s <= i < e implies ascii_word_byte(#[trigger] b[i]) by {
            assert(is_ident_char(b[i]));
        }
        if e < b.len() {
            assert(!is_ident_char(b[e as int]));
        }
    }
}

/// A token read from `p` starts at or after `p`; all tokens but the end of
/// file take at least one byte and end within the text.
pub proof fn lemma_lex_bounds(b: Seq<u8>, nums: Seq<(Seq<char>, NumberView)>, p: nat)
    ensures
        lex(b, nums, p) matches Ok(t) ==> {
            &&& p <= t.offset
            &&& (t.kind !is Eof ==> t.len >= 1 && tok_end(t) <= b.len())
            &&& (t.kind is Eof ==> t.len == 0 && (p <= b.len() ==> t.offset == b.len()))
        },
        lex(b, nums, p) matches Err(e) ==> p <= e.offset < b.len(),
{
    reveal(lex);
    if p <= b.len() {
        lemma_skip_trivia(b, p, false);
        let s = skip_trivia(b, p, false);
        if s < b.len() {
            lemma_digits_end(b, s);
            lemma_ident_end(b, s);
            let e = digits_end(b, s);
            if e < b.len() && b[e as int] == 46 {
                lemma_digits_end(b, e + 1);
            }
        }
    }
}

/// ASCII bytes are valid UTF-8, one character per byte.
pub proof fn lemma_ascii_valid(s: Seq<u8>)
    requires
        forall|i: int| 0 <= i < s.len() ==> s[i] < 0x80,
    ensures
        valid_utf8(s),
    decreases s.len(),
{
    if s.len() > 0 {
        assert(pop_first_scalar(s) =~= s.drop_first());
        lemma_ascii_valid(s.drop_first());
    }
}

/// An identifier's text takes as many bytes as its token.
pub proof fn lemma_lex_ident_len(b: Seq<u8>, nums: Seq<(Seq<char>, NumberView)>, p: nat)
    ensures
        lex(b, nums, p) matches Ok(t) ==> (t.kind matches Tok::Ident(n) ==> byte_len(n) == t.len),
{
    reveal(lex);
    lemma_lex_bounds(b, nums, p);
    if p <= b.len() {
        lemma_skip_trivia(b, p, false);
        let s = skip_trivia(b, p, false);
        if s < b.len() && is_ident_start(b[s as int]) {
            lemma_ident_end(b, s);
            let e = ident_end(b, s);
            let sub = b.subrange(s as int, e as int);
            assert(forall|i: int| 0 <= i < sub.len() ==> sub[i] == b[s + i]);
            lemma_ascii_valid(sub);
            decode_utf8_encode_utf8(sub);
        }
    }
}

// ---------------------------------------------------------------------------
// The grammar
// ---------------------------------------------------------------------------

/// A rate limit rule as plain values: its name and where the name stands,
/// the request count per period, the period in seconds and the burst.
pub struct RuleView {
    pub name: Seq<char>,
    pub name_offset: nat,
    pub count: u32,
    pub period_secs: nat,
    pub burst: u32,
}

/// The length in bytes of a text.
pub open spec fn byte_len(s: Seq<char>) -> nat {
    encode_utf8(s).len()
}

/// The error for a token that is not what the parser expects there.
pub open spec fn unexpected(t: TokenView, what: Seq<char>) -> DiagnosticView {
    diag("expected "@ + what + ", found "@ + described(t.kind), t.offset, at_least_one(t.len), None)
}

/// The error for a number that is not a whole `u32`.
pub open spec fn not_whole(what: Seq<char>, t: TokenView) -> DiagnosticView {
    diag(
        what + " must be a whole number"@,
        t.offset,
        t.len,
        Some("fractional or negative values are not supported"@),
    )
}

/// The length in seconds of a time unit, if it is one.
pub open spec fn unit_seconds(unit: Seq<char>) -> Option<nat> {
    if unit == "sec"@ || unit == "s"@ {
        Some(1)
    } else if unit == "min"@ || unit == "m"@ {
        Some(60)
    } else if unit == "hour"@ || unit == "h"@ {
        Some(3600)
    } else {
        None
    }
}

/// The value of a `rate` field from its count token `t2` on: the count and
/// the period in seconds, and the token after the unit.
#[verifier::opaque]
pub open spec fn parse_rate(b: Seq<u8>, nums: Seq<(Seq<char>, NumberView)>, t2: TokenView) -> Result<((u32, nat), TokenView), DiagnosticView> {
    match t2.kind {
        Tok::Number { whole, .. } => match lex(b, nums, tok_end(t2)) {
            Err(e) => Err(e),
            Ok(t3) => if t3.kind != Tok::Slash {
                Err(unexpected(t3, "'/'"@))
            } else {
                match lex(b, nums, tok_end(t3)) {
                    Err(e) => Err(e),
                    Ok(t4) => match t4.kind {
                        Tok::Ident(unit) => match lex(b, nums, tok_end(t4)) {
                            Err(e) => Err(e),
                            Ok(t5) => match unit_seconds(unit) {
                                None => Err(
                                    diag(
                                        "unknown time unit '"@ + unit + "'"@,
                                        t4.offset,
                                        t4.len,
                                        Some("expected one of: sec, min, hour"@),
                                    ),
                                ),
                                Some(secs) => match whole {
                                    None => Err(not_whole("request count"@, t2)),
                                    Some(count) => Ok(((count, secs), t5)),
                                },
                            },
                        },
                        _ => Err(unexpected(t4, "a time unit (sec, min, or hour)"@)),
                    },
                }
            },
        },
        _ => Err(unexpected(t2, "a request count"@)),
    }
}

/// The value of a `burst` field from its token `t2` on, and the token after.
#[verifier::opaque]
pub open spec fn parse_burst(b: Seq<u8>, nums: Seq<(Seq<char>, NumberView)>, t2: TokenView) -> Result<(u32, TokenView), DiagnosticView> {
    match t2.kind {
        Tok::Number { whole, .. } => match lex(b, nums, tok_end(t2)) {
            Err(e) => Err(e),
            Ok(t3) => match whole {
                None => Err(not_whole("burst size"@, t2)),
                Some(w) => Ok((w, t3)),
            },
        },
        _ => Err(unexpected(t2, "a burst size"@)),
    }
}

/// What a field of rule `name` starting at token `cur` (neither a closing
/// brace nor the end of file) sets: the new rate and burst, and the token
/// after the field.
#[verifier::opaque]
pub open spec fn parse_field(
    b: Seq<u8>, nums: Seq<(Seq<char>, NumberView)>,
    name: Seq<char>,
    cur: TokenView,
    rate: Option<(u32, nat)>,
    burst: Option<u32>,
) -> Result<(Option<(u32, nat)>, Option<u32>, TokenView), DiagnosticView> {
    match cur.kind {
        Tok::Ident(field) => match lex(b, nums, tok_end(cur)) {
            Err(e) => Err(e),
            Ok(t1) => if t1.kind != Tok::Equals {
                Err(unexpected(t1, "'='"@))
            } else {
                match lex(b, nums, tok_end(t1)) {
                    Err(e) => Err(e),
                    Ok(t2) => if field == "rate"@ {
                        match parse_rate(b, nums, t2) {
                            Err(e) => Err(e),
                            Ok((r, next)) => Ok((Some(r), burst, next)),
                        }
                    } else if field == "burst"@ {
                        match parse_burst(b, nums, t2) {
                            Err(e) => Err(e),
                            Ok((w, next)) => Ok((rate, Some(w), next)),
                        }
                    } else {
                        Err(
                            diag(
                                "unknown field '"@ + field + "' in rule '"@ + name + "'"@,
                                cur.offset,
                                cur.len,
                                Some("expected 'rate' or 'burst'"@),
                            ),
                        )
                    },
                }
            },
        },
        _ => Err(unexpected(cur, "a field name ('rate' or 'burst')"@)),
    }
}

/// The rest of the body of rule `name` (whose name stands at `name_offset`)
/// from token `cur` on: the fields up to the closing brace, then the rule and the
/// token after the brace. `rate` holds the count and period of the last
/// `rate` field so far, `burst` the last burst.
pub open spec fn parse_fields(
    b: Seq<u8>, nums: Seq<(Seq<char>, NumberView)>,
    name: Seq<char>,
    name_offset: nat,
    cur: TokenView,
    rate: Option<(u32, nat)>,
    burst: Option<u32>,
) -> Result<(RuleView, TokenView), DiagnosticView>
    decreases b.len() + 1 - cur.offset,
{
    match cur.kind {
        Tok::RBrace => match lex(b, nums, tok_end(cur)) {
            Err(e) => Err(e),
            Ok(next) => match rate {
                None => Err(
                    diag(
                        "rule '"@ + name + "' is missing a 'rate' field"@,
                        name_offset,
                        byte_len(name),
                        Some("add a line like 'rate = 5/sec'"@),
                    ),
                ),
                Some((count, secs)) => Ok(
                    (
                        RuleView {
                            name,
                            name_offset,
                            count,
                            period_secs: secs,
                            burst: match burst {
                                Some(x) => x,
                                None => 0,
                            },
                        },
                        next,
                    ),
                ),
            },
        },
        Tok::Eof => Err(
            diag(
                "unexpected end of file while parsing rule"@,
                cur.offset,
                1,
                Some("rule '"@ + name + "' is missing a closing '}'"@),
            ),
        ),
        _ => match parse_field(b, nums, name, cur, rate, burst) {
            Err(e) => Err(e),
            Ok((rate2, burst2, next)) => {
                proof {
                    lemma_field_progress(b, nums, name, cur, rate, burst);
                }
                parse_fields(b, nums, name, name_offset, next, rate2, burst2)
            },
        },
    }
}

/// The rule that starts at token `cur`, and the token after it.
pub open spec fn parse_rule(b: Seq<u8>, nums: Seq<(Seq<char>, NumberView)>, cur: TokenView) -> Result<(RuleView, TokenView), DiagnosticView> {
    if cur.kind != Tok::Ident("rule"@) {
        Err(
            diag(
                "expected keyword '"@ + "rule"@ + "', found "@ + described(cur.kind),
                cur.offset,
                at_least_one(cur.len),
                None,
            ),
        )
    } else {
        match lex(b, nums, tok_end(cur)) {
            Err(e) => Err(e),
            Ok(t1) => match t1.kind {
                Tok::Ident(name) => match lex(b, nums, tok_end(t1)) {
                    Err(e) => Err(e),
                    Ok(t2) => if t2.kind != Tok::LBrace {
                        Err(unexpected(t2, "'{'"@))
                    } else {
                        match lex(b, nums, tok_end(t2)) {
                            Err(e) => Err(e),
                            Ok(t3) => parse_fields(b, nums, name, t1.offset, t3, None, None),
                        }
                    },
                },
                _ => Err(unexpected(t1, "a rule name"@)),
            },
        }
    }
}

/// Whether some rule of `rules` is named `name`.
pub open spec fn has_rule_named(rules: Seq<RuleView>, name: Seq<char>) -> bool {
    exists|i: int| 0 <= i < rules.len() && rules[i].name == name
}

/// The error for a second rule of the same name.
pub open spec fn duplicate(r: RuleView) -> DiagnosticView {
    diag(
        "rule '"@ + r.name + "' is defined more than once"@,
        r.name_offset,
        byte_len(r.name),
        Some("rule names must be unique within a file"@),
    )
}

/// The rules from token `cur` to the end of the file, after the rules `acc`.
pub open spec fn parse_rules_from(b: Seq<u8>, nums: Seq<(Seq<char>, NumberView)>, cur: TokenView, acc: Seq<RuleView>) -> Result<
    Seq<RuleView>,
    DiagnosticView,
>
    decreases b.len() + 1 - cur.offset,
{
    if cur.kind == Tok::Eof {
        Ok(acc)
    } else {
        match parse_rule(b, nums, cur) {
            Err(e) => Err(e),
            Ok((r, next)) => if has_rule_named(acc, r.name) {
                Err(duplicate(r))
            } else {
                proof {
                    lemma_parse_rule_progress(b, nums, cur);
                }
                parse_rules_from(b, nums, next, acc.push(r))
            },
        }
    }
}

/// The rules of the file `b`, or the first error in it.
pub open spec fn rules_of(b: Seq<u8>, nums: Seq<(Seq<char>, NumberView)>) -> Result<Seq<RuleView>, DiagnosticView> {
    match lex(b, nums, 0) {
        Err(e) => Err(e),
        Ok(t) => parse_rules_from(b, nums, t, Seq::empty()),
    }
}

/// A period of one of the three units: a second, a minute or an hour.
pub open spec fn known_period(secs: nat) -> bool {
    secs == 1 || secs == 60 || secs == 3600
}

/// Rules whose names are all different and whose periods are all of a
/// known unit.
pub open spec fn well_formed_rules(rules: Seq<RuleView>) -> bool {
    &&& forall|i: int, j: int|
        0 <= i < j < rules.len() ==> #[trigger] rules[i].name != #[trigger] rules[j].name
    &&& forall|i: int| 0 <= i < rules.len() ==> known_period(#[trigger] rules[i].period_secs)
}

proof fn lemma_field_keeps_unit(
    b: Seq<u8>, nums: Seq<(Seq<char>, NumberView)>,
    name: Seq<char>,
    cur: TokenView,
    rate: Option<(u32, nat)>,
    burst: Option<u32>,
)
    requires
        rate matches Some((_, p)) ==> known_period(p),
    ensures
        parse_field(b, nums, name, cur, rate, burst) matches Ok((rate2, _, _)) ==> (rate2 matches Some((_, p))
            ==> known_period(p)),
{
    reveal(parse_field);
    reveal(parse_rate);
}

proof fn lemma_fields_unit(
    b: Seq<u8>, nums: Seq<(Seq<char>, NumberView)>,
    name: Seq<char>,
    name_offset: nat,
    cur: TokenView,
    rate: Option<(u32, nat)>,
    burst: Option<u32>,
)
    requires
        rate matches Some((_, p)) ==> known_period(p),
    ensures
        parse_fields(b, nums, name, name_offset, cur, rate, burst) matches Ok((r, _)) ==> known_period(
            r.period_secs,
        ) && r.name == name && r.name_offset == name_offset,
    decreases b.len() + 1 - cur.offset,
{
    if cur.kind !is RBrace && cur.kind !is Eof {
        lemma_field_keeps_unit(b, nums, name, cur, rate, burst);
        lemma_field_progress(b, nums, name, cur, rate, burst);
        if let Ok((rate2, burst2, next)) = parse_field(b, nums, name, cur, rate, burst) {
            lemma_fields_unit(b, nums, name, name_offset, next, rate2, burst2);
        }
    }
}

proof fn lemma_rules_from_well_formed(b: Seq<u8>, nums: Seq<(Seq<char>, NumberView)>, cur: TokenView, acc: Seq<RuleView>)
    requires
        well_formed_rules(acc),
    ensures
        parse_rules_from(b, nums, cur, acc) matches Ok(rs) ==> well_formed_rules(rs),
    decreases b.len() + 1 - cur.offset,
{
    if cur.kind != Tok::Eof {
        if let Ok((r, next)) = parse_rule(b, nums, cur) {
            if !has_rule_named(acc, r.name) {
                lemma_parse_rule_progress(b, nums, cur);
                if let Ok(t1) = lex(b, nums, tok_end(cur)) {
                    if let Ok(t2) = lex(b, nums, tok_end(t1)) {
                        if let Ok(t3) = lex(b, nums, tok_end(t2)) {
                            lemma_fields_unit(b, nums, t1.kind->Ident_0, t1.offset, t3, None, None);
                        }
                    }
                }
                let acc2 = acc.push(r);
                assert forall|i: int, j: int| 0 <= i < j < acc2.len() implies #[trigger] acc2[i].name
                    != #[trigger] acc2[j].name by {
                    if j == acc.len() {
                        assert(acc[i].name != r.name);
                    }
                }
                lemma_rules_from_well_formed(b, nums, next, acc2);
            }
        }
    }
}

/// The rules that a file defines have different names, and each counts
/// requests per second, per minute or per hour.
pub proof fn lemma_rules_well_formed(b: Seq<u8>, nums: Seq<(Seq<char>, NumberView)>)
    ensures
        rules_of(b, nums) matches Ok(rs) ==> well_formed_rules(rs),
{
    if let Ok(t) = lex(b, nums, 0) {
        lemma_rules_from_well_formed(b, nums, t, Seq::empty());
    }
}

/// Each rule's name stands at its offset, as that many bytes of the file,
/// and the rules come in the order of their names in the file.
pub open spec fn rules_in_place(b: Seq<u8>, rules: Seq<RuleView>) -> bool {
    &&& forall|i: int|
        0 <= i < rules.len() ==> {
            &&& #[trigger] rules[i].name_offset + byte_len(rules[i].name) <= b.len()
            &&& text_of(b, rules[i].name_offset, rules[i].name_offset + byte_len(rules[i].name))
                == rules[i].name
        }
    &&& forall|i: int, j: int|
        0 <= i < j < rules.len() ==> #[trigger] rules[i].name_offset < #[trigger] rules[j].name_offset
}

proof fn lemma_rule_in_place(b: Seq<u8>, nums: Seq<(Seq<char>, NumberView)>, cur: TokenView)
    ensures
        parse_rule(b, nums, cur) matches Ok((r, next)) ==> {
            &&& cur.offset <= r.name_offset < next.offset
            &&& r.name_offset + byte_len(r.name) <= b.len()
            &&& text_of(b, r.name_offset, r.name_offset + byte_len(r.name)) == r.name
        },
{
    lemma_lex_bounds(b, nums, tok_end(cur));
    if let Ok(t1) = lex(b, nums, tok_end(cur)) {
        lemma_lex_bounds(b, nums, tok_end(t1));
        lemma_lex_ident_len(b, nums, tok_end(cur));
        if tok_end(cur) <= b.len() {
            lemma_token_text(b, nums, tok_end(cur));
        } else {
            reveal(lex);
        }
        if let Ok(t2) = lex(b, nums, tok_end(t1)) {
            lemma_lex_bounds(b, nums, tok_end(t2));
            if let Ok(t3) = lex(b, nums, tok_end(t2)) {
                if t1.kind is Ident && t2.kind == Tok::LBrace && cur.kind == Tok::Ident("rule"@) {
                    let name = t1.kind->Ident_0;
                    lemma_fields_progress(b, nums, name, t1.offset, t3, None, None);
                    lemma_fields_unit(b, nums, name, t1.offset, t3, None, None);
                }
            }
        }
    }
}

proof fn lemma_rules_from_in_place(b: Seq<u8>, nums: Seq<(Seq<char>, NumberView)>, cur: TokenView, acc: Seq<RuleView>)
    requires
        rules_in_place(b, acc),
        forall|i: int| 0 <= i < acc.len() ==> #[trigger] acc[i].name_offset < cur.offset,
    ensures
        parse_rules_from(b, nums, cur, acc) matches Ok(rs) ==> rules_in_place(b, rs),
    decreases b.len() + 1 - cur.offset,
{
    if cur.kind != Tok::Eof {
        if let Ok((r, next)) = parse_rule(b, nums, cur) {
            if !has_rule_named(acc, r.name) {
                lemma_parse_rule_progress(b, nums, cur);
                lemma_rule_in_place(b, nums, cur);
                let acc2 = acc.push(r);
                assert(acc2[acc.len() as int] == r);
                assert forall|i: int, j: int| 0 <= i < j < acc2.len() implies #[trigger] acc2[i].name_offset
                    < #[trigger] acc2[j].name_offset by {
                    if j == acc.len() {
                        assert(acc[i].name_offset < cur.offset);
                    }
                }
                assert forall|i: int| 0 <= i < acc2.len() implies #[trigger] acc2[i].name_offset < next.offset by {
                    if i < acc.len() {
                        assert(acc[i].name_offset < cur.offset);
                    }
                }
                lemma_rules_from_in_place(b, nums, next, acc2);
            }
        }
    }
}

/// Each rule that a file defines has its name at its offset, and the rules
/// come in the order of their names in the file.
pub proof fn lemma_rules_in_place(b: Seq<u8>, nums: Seq<(Seq<char>, NumberView)>)
    ensures
        rules_of(b, nums) matches Ok(rs) ==> rules_in_place(b, rs),
{
    lemma_lex_bounds(b, nums, 0);
    if let Ok(t) = lex(b, nums, 0) {
        lemma_rules_from_in_place(b, nums, t, Seq::empty());
    }
}

/// An error, if `r` is one, points into the text `b` and has no second
/// location.
pub open spec fn error_in_text<T>(b: Seq<u8>, r: Result<T, DiagnosticView>) -> bool {
    r matches Err(d) ==> d.offset <= b.len() && d.secondary is None
}

/// A token that lies within the text.
pub open spec fn token_in_text(b: Seq<u8>, t: TokenView) -> bool {
    tok_end(t) <= b.len()
}

proof fn lemma_lex_in_text(b: Seq<u8>, nums: Seq<(Seq<char>, NumberView)>, p: nat)
    requires
        p <= b.len(),
    ensures
        error_in_text(b, lex(b, nums, p)),
        lex(b, nums, p) matches Ok(t) ==> token_in_text(b, t),
{
    reveal(lex);
    lemma_lex_bounds(b, nums, p);
}

proof fn lemma_field_in_text(
    b: Seq<u8>, nums: Seq<(Seq<char>, NumberView)>,
    name: Seq<char>,
    cur: TokenView,
    rate: Option<(u32, nat)>,
    burst: Option<u32>,
)
    requires
        token_in_text(b, cur),
    ensures
        error_in_text(b, parse_field(b, nums, name, cur, rate, burst)),
        parse_field(b, nums, name, cur, rate, burst) matches Ok((_, _, next)) ==> token_in_text(b, next),
{
    reveal(parse_field);
    reveal(parse_rate);
    reveal(parse_burst);
    lemma_lex_in_text(b, nums, tok_end(cur));
    if let Ok(t1) = lex(b, nums, tok_end(cur)) {
        lemma_lex_in_text(b, nums, tok_end(t1));
        if let Ok(t2) = lex(b, nums, tok_end(t1)) {
            lemma_lex_in_text(b, nums, tok_end(t2));
            if let Ok(t3) = lex(b, nums, tok_end(t2)) {
                lemma_lex_in_text(b, nums, tok_end(t3));
                if let Ok(t4) = lex(b, nums, tok_end(t3)) {
                    lemma_lex_in_text(b, nums, tok_end(t4));
                }
            }
        }
    }
}

proof fn lemma_fields_in_text(
    b: Seq<u8>, nums: Seq<(Seq<char>, NumberView)>,
    name: Seq<char>,
    name_offset: nat,
    cur: TokenView,
    rate: Option<(u32, nat)>,
    burst: Option<u32>,
)
    requires
        name_offset <= b.len(),
        token_in_text(b, cur),
    ensures
        error_in_text(b, parse_fields(b, nums, name, name_offset, cur, rate, burst)),
        parse_fields(b, nums, name, name_offset, cur, rate, burst) matches Ok((_, next)) ==> token_in_text(b, next),
    decreases b.len() + 1 - cur.offset,
{
    lemma_lex_in_text(b, nums, tok_end(cur));
    if cur.kind !is RBrace && cur.kind !is Eof {
        lemma_field_in_text(b, nums, name, cur, rate, burst);
        lemma_field_progress(b, nums, name, cur, rate, burst);
        if let Ok((rate2, burst2, next)) = parse_field(b, nums, name, cur, rate, burst) {
            lemma_fields_in_text(b, nums, name, name_offset, next, rate2, burst2);
        }
    }
}

proof fn lemma_rules_from_in_text(b: Seq<u8>, nums: Seq<(Seq<char>, NumberView)>, cur: TokenView, acc: Seq<RuleView>)
    requires
        token_in_text(b, cur),
    ensures
        error_in_text(b, parse_rules_from(b, nums, cur, acc)),
    decreases b.len() + 1 - cur.offset,
{
    if cur.kind != Tok::Eof {
        lemma_rule_in_place(b, nums, cur);
        lemma_lex_in_text(b, nums, tok_end(cur));
        if let Ok(t1) = lex(b, nums, tok_end(cur)) {
            lemma_lex_in_text(b, nums, tok_end(t1));
            if let Ok(t2) = lex(b, nums, tok_end(t1)) {
                lemma_lex_in_text(b, nums, tok_end(t2));
                if let Ok(t3) = lex(b, nums, tok_end(t2)) {
                    if t1.kind is Ident {
                        lemma_fields_in_text(b, nums, t1.kind->Ident_0, t1.offset, t3, None, None);
                    }
                }
            }
        }
        if let Ok((r, next)) = parse_rule(b, nums, cur) {
            if !has_rule_named(acc, r.name) {
                lemma_parse_rule_progress(b, nums, cur);
                lemma_rules_from_in_text(b, nums, next, acc.push(r));
            }
        }
    }
}

/// An error in a rules file points into the file and has no second location.
pub proof fn lemma_rules_error_in_text(b: Seq<u8>, nums: Seq<(Seq<char>, NumberView)>)
    ensures
        error_in_text(b, rules_of(b, nums)),
{
    lemma_lex_in_text(b, nums, 0);
    if let Ok(t) = lex(b, nums, 0) {
        lemma_rules_from_in_text(b, nums, t, Seq::empty());
    }
}

/// A field takes at least one token, and what follows it lies in the text.
pub proof fn lemma_field_progress(
    b: Seq<u8>, nums: Seq<(Seq<char>, NumberView)>,
    name: Seq<char>,
    cur: TokenView,
    rate: Option<(u32, nat)>,
    burst: Option<u32>,
)
    ensures
        parse_field(b, nums, name, cur, rate, burst) matches Ok((_, _, next)) ==> {
            &&& cur.offset < next.offset <= b.len()
            &&& (next.kind !is Eof ==> next.len >= 1 && tok_end(next) <= b.len())
        },
{
    reveal(parse_field);
    reveal(parse_rate);
    reveal(parse_burst);
    lemma_lex_bounds(b, nums, tok_end(cur));
    if let Ok(t1) = lex(b, nums, tok_end(cur)) {
        lemma_lex_bounds(b, nums, tok_end(t1));
        if let Ok(t2) = lex(b, nums, tok_end(t1)) {
            lemma_lex_bounds(b, nums, tok_end(t2));
            if let Ok(t3) = lex(b, nums, tok_end(t2)) {
                lemma_lex_bounds(b, nums, tok_end(t3));
                if let Ok(t4) = lex(b, nums, tok_end(t3)) {
                    lemma_lex_bounds(b, nums, tok_end(t4));
                }
            }
        }
    }
}

proof fn lemma_fields_progress(
    b: Seq<u8>, nums: Seq<(Seq<char>, NumberView)>,
    name: Seq<char>,
    name_offset: nat,
    cur: TokenView,
    rate: Option<(u32, nat)>,
    burst: Option<u32>,
)
    requires
        cur.offset <= b.len(),
        cur.kind !is Eof ==> cur.len >= 1 && tok_end(cur) <= b.len(),
    ensures
        parse_fields(b, nums, name, name_offset, cur, rate, burst) matches Ok((r, next)) ==> cur.offset
            < next.offset <= b.len(),
    decreases b.len() + 1 - cur.offset,
{
    lemma_lex_bounds(b, nums, tok_end(cur));
    lemma_field_progress(b, nums, name, cur, rate, burst);
    if let Ok((rate2, burst2, next)) = parse_field(b, nums, name, cur, rate, burst) {
        if cur.kind !is RBrace && cur.kind !is Eof {
            lemma_lex_bounds(b, nums, tok_end(cur));
            lemma_fields_progress(b, nums, name, name_offset, next, rate2, burst2);
        }
    }
}

/// A rule takes at least one token, and what follows it lies in the text.
pub proof fn lemma_parse_rule_progress(b: Seq<u8>, nums: Seq<(Seq<char>, NumberView)>, cur: TokenView)
    ensures
        parse_rule(b, nums, cur) matches Ok((r, next)) ==> cur.offset < next.offset <= b.len(),
{
    lemma_lex_bounds(b, nums, tok_end(cur));
    if let Ok(t1) = lex(b, nums, tok_end(cur)) {
        lemma_lex_bounds(b, nums, tok_end(t1));
        if let Ok(t2) = lex(b, nums, tok_end(t1)) {
            lemma_lex_bounds(b, nums, tok_end(t2));
            if let Ok(t3) = lex(b, nums, tok_end(t2)) {
                if t1.kind is Ident && t2.kind == Tok::LBrace {
                    lemma_lex_bounds(b, nums, tok_end(t2));
                    lemma_fields_progress(b, nums, t1.kind->Ident_0, t1.offset, t3, None, None);
                }
            }
        }
    }
}

// ---------------------------------------------------------------------------
// The lexer
// ---------------------------------------------------------------------------

enum TokenKind {
    Ident(String),
    Number { whole: Option<u32>, shown: String },
    Slash,
    Equals,
    LBrace,
    RBrace,
    Eof,
}

struct Token {
    kind: TokenKind,
    offset: usize,
    len: usize,
}

impl View for TokenKind {
    type V = Tok;

    closed spec fn view(&self) -> Tok {
        match self {
            TokenKind::Ident(s) => Tok::Ident(s@),
            TokenKind::Number { whole, shown } => Tok::Number { whole: *whole, shown: shown@ },
            TokenKind::Slash => Tok::Slash,
            TokenKind::Equals => Tok::Equals,
            TokenKind::LBrace => Tok::LBrace,
            TokenKind::RBrace => Tok::RBrace,
            TokenKind::Eof => Tok::Eof,
        }
    }
}

impl View for Token {
    type V = TokenView;

    closed spec fn view(&self) -> TokenView {
        TokenView { kind: self.kind@, offset: self.offset as nat, len: self.len as nat }
    }
}

/// A number's reading, as the caller hands it in.
pub struct NumberValue {
    pub whole: Option<u32>,
    pub shown: String,
}

impl View for NumberValue {
    type V = NumberView;

    open spec fn view(&self) -> NumberView {
        NumberView { whole: self.whole, shown: self.shown@ }
    }
}

/// A table of number texts and their readings, as plain values.
pub open spec fn number_table(v: Seq<(String, NumberValue)>) -> Seq<(Seq<char>, NumberView)> {
    v.map_values(|e: (String, NumberValue)| (e.0@, e.1@))
}

/// The reading of the number text `text` in `nums`.
fn number_in(nums: &[(String, NumberValue)], text: &str) -> (r: NumberValue)
    ensures
        r@ == number_reading(number_table(nums@), text@),
{
    let ghost all = number_table(nums@);
    let mut i: usize = 0;
    assert(all.subrange(0, all.len() as int) =~= all);
    while i < nums.len()
        invariant
            i <= nums@.len(),
            all == number_table(nums@),
            number_reading(all, text@) == number_reading(all.subrange(i as int, all.len() as int), text@),
        decreases nums@.len() - i,
    {
        let ghost rest = all.subrange(i as int, all.len() as int);
        assert(rest[0] == all[i as int]);
        assert(rest.drop_first() =~= all.subrange(i + 1, all.len() as int));
        if str_eq(nums[i].0.as_str(), text) {
            return NumberValue { whole: nums[i].1.whole, shown: nums[i].1.shown.as_str().to_owned() };
        }
        i = i + 1;
    }
    assert(all.subrange(i as int, all.len() as int) =~= Seq::<(Seq<char>, NumberView)>::empty());
    NumberValue { whole: None, shown: text.to_owned() }
}

fn describe(kind: &TokenKind) -> (r: String)
    ensures
        r@ == described(kind@),
{
    let mut out = String::new();
    match kind {
        TokenKind::Ident(s) => {
            out.append("identifier '");
            out.append(s.as_str());
            out.append("'");
        },
        TokenKind::Number { shown, .. } => {
            out.append("number '");
            out.append(shown.as_str());
            out.append("'");
        },
        TokenKind::Slash => out.append("'/'"),
        TokenKind::Equals => out.append("'='"),
        TokenKind::LBrace => out.append("'{'"),
        TokenKind::RBrace => out.append("'}'"),
        TokenKind::Eof => out.append("end of file"),
    }
    out
}

struct Lexer<'a> {
    text: &'a str,
    src: &'a [u8],
    nums: &'a [(String, NumberValue)],
    pos: usize,
}

impl<'a> Lexer<'a> {
    spec fn wf(&self) -> bool {
        &&& self.src@ == self.text.spec_bytes()
        &&& self.pos <= self.src@.len()
    }

    spec fn table(&self) -> Seq<(Seq<char>, NumberView)> {
        number_table(self.nums@)
    }

    fn new(text: &'a str, nums: &'a [(String, NumberValue)]) -> (l: Self)
        ensures
            l.wf(),
            l.text == text,
            l.nums == nums,
            l.pos == 0,
    {
        Lexer { text, src: text.as_bytes(), nums, pos: 0 }
    }

    fn peek(&self) -> (r: Option<u8>)
        requires
            self.wf(),
        ensures
            r == (if self.pos < self.src@.len() {
                Some(self.src@[self.pos as int])
            } else {
                None
            }),
    {
        if self.pos < self.src.len() {
            Some(self.src[self.pos])
        } else {
            None
        }
    }

    fn bump(&mut self) -> (r: Option<u8>)
        requires
            old(self).wf(),
        ensures
            final(self).wf(),
            final(self).text == old(self).text,
            final(self).src == old(self).src,
            final(self).nums == old(self).nums,
            r == (if old(self).pos < old(self).src@.len() {
                Some(old(self).src@[old(self).pos as int])
            } else {
                None
            }),
            final(self).pos == if r is Some { old(self).pos + 1 } else { old(self).pos as int },
    {
        if self.pos < self.src.len() {
            let c = self.src[self.pos];
            self.pos += 1;
            Some(c)
        } else {
            None
        }
    }

    fn skip_trivia(&mut self)
        requires
            old(self).wf(),
        ensures
            final(self).wf(),
            final(self).text == old(self).text,
            final(self).src == old(self).src,
            final(self).nums == old(self).nums,
            final(self).pos == skip_trivia(old(self).src@, old(self).pos as nat, false),
    {
        let ghost b = self.src@;
        loop
            invariant
                self.wf(),
                self.text == old(self).text,
                self.src == old(self).src,
                self.nums == old(self).nums,
                b == self.src@,
                skip_trivia(b, old(self).pos as nat, false) == skip_trivia(b, self.pos as nat, false),
            ensures
                self.pos >= b.len() || (!is_space(b[self.pos as int]) && b[self.pos as int] != 35),
            decreases b.len() - self.pos,
        {
            match self.peek() {
                Some(c) => {
                    if c == 32u8 || c == 9u8 || c == 13u8 || c == 10u8 {
                        self.bump();
                    } else if c == 35u8 {
                        let ghost p0 = self.pos;
                        self.bump();
                        loop
                            invariant
                                self.pos > p0,
                                self.wf(),
                                self.text == old(self).text,
                                self.src == old(self).src,
                    self.nums == old(self).nums,
                                self.nums == old(self).nums,
                self.nums == old(self).nums,
                                b == self.src@,
                                skip_trivia(b, old(self).pos as nat, false) == skip_trivia(
                                    b,
                                    self.pos as nat,
                                    true,
                                ),
                            ensures
                                self.pos >= b.len() || b[self.pos as int] == 10,
                            decreases b.len() - self.pos,
                        {
                            match self.peek() {
                                Some(c) => {
                                    if c == 10u8 {
                                        break;
                                    }
                                    self.bump();
                                },
                                None => {
                                    break;
                                },
                            }
                        }
                    } else {
                        break;
                    }
                },
                None => {
                    break;
                },
            }
        }
    }

    fn lex_number(&mut self) -> (r: Token)
        requires
            old(self).wf(),
            old(self).pos < old(self).src@.len(),
            is_digit(old(self).src@[old(self).pos as int]),
        ensures
            final(self).wf(),
            final(self).text == old(self).text,
            final(self).src == old(self).src,
            final(self).nums == old(self).nums,
            r@ == number_at(old(self).src@, old(self).table(), old(self).pos as nat),
            final(self).pos == tok_end(r@),
    {
        let ghost b = self.src@;
        let start = self.pos;
        proof {
            lemma_str_valid(self.text);
            lemma_digits_end(b, start as nat);
        }
        while self.pos < self.src.len() && self.src[self.pos] >= 48u8 && self.src[self.pos] <= 57u8
            invariant
                self.wf(),
                self.text == old(self).text,
                self.src == old(self).src,
                self.nums == old(self).nums,
                b == self.src@,
                start <= self.pos <= digits_end(b, start as nat),
                digits_end(b, start as nat) == digits_end(b, self.pos as nat),
            decreases b.len() - self.pos,
        {
            proof {
                lemma_digits_end(b, self.pos as nat + 1);
            }
            self.bump();
        }
        let int_end = self.pos;
        if self.pos < self.src.len() && self.src[self.pos] == 46u8 {
            self.bump();
            let frac_start = self.pos;
            proof {
                lemma_digits_end(b, frac_start as nat);
            }
            while self.pos < self.src.len() && self.src[self.pos] >= 48u8 && self.src[self.pos]
                <= 57u8
                invariant
                    self.wf(),
                    self.text == old(self).text,
                    self.src == old(self).src,
                    self.nums == old(self).nums,
                    b == self.src@,
                    frac_start == int_end + 1,
                    frac_start <= self.pos <= digits_end(b, frac_start as nat),
                    digits_end(b, frac_start as nat) == digits_end(b, self.pos as nat),
                decreases b.len() - self.pos,
            {
                proof {
                    lemma_digits_end(b, self.pos as nat + 1);
                }
                self.bump();
            }
        }
        let end = self.pos;
        assert(end == number_end(b, start as nat));
        proof {
            lemma_boundary_at_ascii(b, start as int);
            lemma_boundary_after_ascii(b, end as int);
        }
        let text = slice_str(self.text, start, end);
        let v = number_in(self.nums, text);
        Token { kind: TokenKind::Number { whole: v.whole, shown: v.shown }, offset: start, len: end - start }
    }

    fn lex_ident(&mut self) -> (r: Token)
        requires
            old(self).wf(),
            old(self).pos < old(self).src@.len(),
            is_ident_start(old(self).src@[old(self).pos as int]),
        ensures
            final(self).wf(),
            final(self).text == old(self).text,
            final(self).src == old(self).src,
            final(self).nums == old(self).nums,
            r@ == (TokenView {
                kind: Tok::Ident(
                    text_of(
                        old(self).src@,
                        old(self).pos as nat,
                        ident_end(old(self).src@, old(self).pos as nat),
                    ),
                ),
                offset: old(self).pos as nat,
                len: (ident_end(old(self).src@, old(self).pos as nat) - old(self).pos) as nat,
            }),
            final(self).pos == tok_end(r@),
    {
        let ghost b = self.src@;
        let start = self.pos;
        proof {
            lemma_str_valid(self.text);
            lemma_ident_end(b, start as nat);
        }
        while self.pos < self.src.len() && ident_byte(self.src[self.pos])
            invariant
                self.wf(),
                self.text == old(self).text,
                self.src == old(self).src,
                self.nums == old(self).nums,
                b == self.src@,
                start <= self.pos <= ident_end(b, start as nat),
                ident_end(b, start as nat) == ident_end(b, self.pos as nat),
            decreases b.len() - self.pos,
        {
            proof {
                lemma_ident_end(b, self.pos as nat + 1);
            }
            self.bump();
        }
        let end = self.pos;
        proof {
            lemma_boundary_at_ascii(b, start as int);
            lemma_boundary_after_ascii(b, end as int);
        }
        let text = slice_str(self.text, start, end).to_owned();
        Token { kind: TokenKind::Ident(text), offset: start, len: end - start }
    }

    fn next_token(&mut self) -> (r: Result<Token, Diagnostic>)
        requires
            old(self).wf(),
        ensures
            final(self).wf(),
            final(self).text == old(self).text,
            final(self).src == old(self).src,
            final(self).nums == old(self).nums,
            (match r {
                Ok(t) => Ok(t@),
                Err(e) => Err(e@),
            }) == lex(old(self).src@, old(self).table(), old(self).pos as nat),
            r matches Ok(t) ==> final(self).pos == tok_end(t@),
    {
        reveal(lex);
        self.skip_trivia();
        let start = self.pos;
        let c = match self.peek() {
            Some(c) => c,
            None => {
                return Ok(Token { kind: TokenKind::Eof, offset: start, len: 0 });
            },
        };
        if c == 123u8 {
            self.bump();
            let t = Token { kind: TokenKind::LBrace, offset: start, len: 1 };
            assert(lex(old(self).src@, old(self).table(), old(self).pos as nat) == Ok::<TokenView, DiagnosticView>(t@));
            Ok(t)
        } else if c == 125u8 {
            self.bump();
            Ok(Token { kind: TokenKind::RBrace, offset: start, len: 1 })
        } else if c == 61u8 {
            self.bump();
            Ok(Token { kind: TokenKind::Equals, offset: start, len: 1 })
        } else if c == 47u8 {
            self.bump();
            Ok(Token { kind: TokenKind::Slash, offset: start, len: 1 })
        } else if c >= 48u8 && c <= 57u8 {
            Ok(self.lex_number())
        } else if (c >= 97u8 && c <= 122u8) || (c >= 65u8 && c <= 90u8) || c == 95u8 {
            Ok(self.lex_ident())
        } else {
            let mut message = String::new();
            message.append("unexpected character '");
            push_char(&mut message, c as char);
            message.append("'");
            let r = Err(Diagnostic { message, offset: start, len: 1, help: None, secondary: None });
            // the message first, then the whole diagnostic
            assert(lex(old(self).src@, old(self).table(), old(self).pos as nat) matches Err(e) && e.message == message@);
            assert(lex(old(self).src@, old(self).table(), old(self).pos as nat) matches Err(e) && e == r->Err_0@);
            r
        }
    }
}

/// A parsed rate limit rule: its name and where the name stands in the file,
/// `count` requests per `period_secs` seconds, and the burst allowance.
#[derive(Debug, Clone)]
pub struct RateLimit {
    pub name: String,
    pub name_offset: usize,
    pub count: u32,
    pub period_secs: u64,
    pub burst: u32,
}

impl View for RateLimit {
    type V = RuleView;

    open spec fn view(&self) -> RuleView {
        RuleView {
            name: self.name@,
            name_offset: self.name_offset as nat,
            count: self.count,
            period_secs: self.period_secs as nat,
            burst: self.burst,
        }
    }
}

/// The rules, as plain values.
pub open spec fn rule_views(v: Seq<RateLimit>) -> Seq<RuleView> {
    v.map_values(|r: RateLimit| r@)
}

/// A result of parsing rules, as plain values.
pub open spec fn rules_result(r: Result<Vec<RateLimit>, Diagnostic>) -> Result<Seq<RuleView>, DiagnosticView> {
    match r {
        Ok(v) => Ok(rule_views(v@)),
        Err(e) => Err(e@),
    }
}

/// The texts of the numbers that start at each digit from position `s` of
/// `b` on: the texts whose readings `parse_rules` may look up.
pub open spec fn number_texts_from(b: Seq<u8>, s: nat) -> Seq<Seq<char>>
    decreases b.len() - s,
{
    if s >= b.len() {
        Seq::empty()
    } else {
        (if is_digit(b[s as int]) {
            seq![text_of(b, s, number_end(b, s))]
        } else {
            Seq::empty()
        }) + number_texts_from(b, s + 1)
    }
}

/// Two number tables agree on the texts `texts`.
pub open spec fn numbers_agree_on(
    n1: Seq<(Seq<char>, NumberView)>,
    n2: Seq<(Seq<char>, NumberView)>,
    texts: Seq<Seq<char>>,
) -> bool {
    forall|i: int| 0 <= i < texts.len() ==> number_reading(n1, #[trigger] texts[i]) == number_reading(n2, texts[i])
}

proof fn lemma_number_text_listed(b: Seq<u8>, q: nat, s: nat)
    requires
        q <= s < b.len(),
        is_digit(b[s as int]),
    ensures
        exists|i: int|
            0 <= i < number_texts_from(b, q).len() && #[trigger] number_texts_from(b, q)[i] == text_of(
                b,
                s,
                number_end(b, s),
            ),
    decreases s - q,
{
    let all = number_texts_from(b, q);
    let head: Seq<Seq<char>> = if is_digit(b[q as int]) {
        seq![text_of(b, q, number_end(b, q))]
    } else {
        Seq::empty()
    };
    assert(all == head + number_texts_from(b, q + 1));
    if q == s {
        assert(all[0] == text_of(b, s, number_end(b, s)));
    } else {
        lemma_number_text_listed(b, q + 1, s);
        let i = choose|i: int|
            0 <= i < number_texts_from(b, q + 1).len() && #[trigger] number_texts_from(b, q + 1)[i]
                == text_of(b, s, number_end(b, s));
        assert(all[head.len() + i] == number_texts_from(b, q + 1)[i]);
    }
}

proof fn lemma_lex_agrees(b: Seq<u8>, n1: Seq<(Seq<char>, NumberView)>, n2: Seq<(Seq<char>, NumberView)>, p: nat)
    requires
        numbers_agree_on(n1, n2, number_texts_from(b, 0)),
    ensures
        lex(b, n1, p) == lex(b, n2, p),
{
    reveal(lex);
    let s = skip_trivia(b, p, false);
    if s < b.len() && is_digit(b[s as int]) {
        lemma_number_text_listed(b, 0, s);
        let i = choose|i: int|
            0 <= i < number_texts_from(b, 0).len() && #[trigger] number_texts_from(b, 0)[i] == text_of(
                b,
                s,
                number_end(b, s),
            );
        assert(number_reading(n1, number_texts_from(b, 0)[i]) == number_reading(n2, number_texts_from(b, 0)[i]));
    }
}

proof fn lemma_fields_agree(
    b: Seq<u8>,
    n1: Seq<(Seq<char>, NumberView)>,
    n2: Seq<(Seq<char>, NumberView)>,
    name: Seq<char>,
    name_offset: nat,
    cur: TokenView,
    rate: Option<(u32, nat)>,
    burst: Option<u32>,
)
    requires
        forall|p: nat| #[trigger] lex(b, n1, p) == lex(b, n2, p),
    ensures
        parse_fields(b, n1, name, name_offset, cur, rate, burst) == parse_fields(b, n2, name, name_offset, cur, rate, burst),
    decreases b.len() + 1 - cur.offset,
{
    assert(lex(b, n1, tok_end(cur)) == lex(b, n2, tok_end(cur)));
    if cur.kind !is RBrace && cur.kind !is Eof {
        assert(parse_field(b, n1, name, cur, rate, burst) == parse_field(b, n2, name, cur, rate, burst)) by {
            reveal(parse_field);
            reveal(parse_rate);
            reveal(parse_burst);
            if let Ok(t1) = lex(b, n1, tok_end(cur)) {
                assert(lex(b, n1, tok_end(t1)) == lex(b, n2, tok_end(t1)));
                if let Ok(t2) = lex(b, n1, tok_end(t1)) {
                    assert(lex(b, n1, tok_end(t2)) == lex(b, n2, tok_end(t2)));
                    if let Ok(t3) = lex(b, n1, tok_end(t2)) {
                        assert(lex(b, n1, tok_end(t3)) == lex(b, n2, tok_end(t3)));
                        if let Ok(t4) = lex(b, n1, tok_end(t3)) {
                            assert(lex(b, n1, tok_end(t4)) == lex(b, n2, tok_end(t4)));
                        }
                    }
                }
            }
        }
        lemma_field_progress(b, n1, name, cur, rate, burst);
        if let Ok((rate2, burst2, next)) = parse_field(b, n1, name, cur, rate, burst) {
            lemma_fields_agree(b, n1, n2, name, name_offset, next, rate2, burst2);
        }
    }
}

proof fn lemma_rules_from_agree(
    b: Seq<u8>,
    n1: Seq<(Seq<char>, NumberView)>,
    n2: Seq<(Seq<char>, NumberView)>,
    cur: TokenView,
    acc: Seq<RuleView>,
)
    requires
        forall|p: nat| #[trigger] lex(b, n1, p) == lex(b, n2, p),
    ensures
        parse_rules_from(b, n1, cur, acc) == parse_rules_from(b, n2, cur, acc),
    decreases b.len() + 1 - cur.offset,
{
    if cur.kind != Tok::Eof {
        assert(lex(b, n1, tok_end(cur)) == lex(b, n2, tok_end(cur)));
        if let Ok(t1) = lex(b, n1, tok_end(cur)) {
            assert(lex(b, n1, tok_end(t1)) == lex(b, n2, tok_end(t1)));
            if let Ok(t2) = lex(b, n1, tok_end(t1)) {
                assert(lex(b, n1, tok_end(t2)) == lex(b, n2, tok_end(t2)));
                if let Ok(t3) = lex(b, n1, tok_end(t2)) {
                    if t1.kind is Ident {
                        lemma_fields_agree(b, n1, n2, t1.kind->Ident_0, t1.offset, t3, None, None);
                    }
                }
            }
        }
        assert(parse_rule(b, n1, cur) == parse_rule(b, n2, cur));
        if let Ok((r, next)) = parse_rule(b, n1, cur) {
            if !has_rule_named(acc, r.name) {
                lemma_parse_rule_progress(b, n1, cur);
                lemma_rules_from_agree(b, n1, n2, next, acc.push(r));
            }
        }
    }
}

/// Reading rules looks up only the texts that `number_texts` lists: two
/// number tables that agree on those texts read a file alike.
pub proof fn lemma_rules_read_number_texts(
    b: Seq<u8>,
    n1: Seq<(Seq<char>, NumberView)>,
    n2: Seq<(Seq<char>, NumberView)>,
)
    requires
        numbers_agree_on(n1, n2, number_texts_from(b, 0)),
    ensures
        rules_of(b, n1) == rules_of(b, n2),
{
    assert forall|p: nat| #[trigger] lex(b, n1, p) == lex(b, n2, p) by {
        lemma_lex_agrees(b, n1, n2, p);
    }
    if let Ok(t) = lex(b, n1, 0) {
        lemma_rules_from_agree(b, n1, n2, t, Seq::empty());
    }
}

/// Where the number that starts at `s` (a digit) of `bytes` ends.
fn number_end_at(bytes: &[u8], s: usize) -> (r: usize)
    requires
        s < bytes@.len(),
        is_digit(bytes@[s as int]),
    ensures
        r == number_end(bytes@, s as nat),
        s < r <= bytes@.len(),
        bytes@[r - 1] < 0x80,
{
    let ghost b = bytes@;
    proof {
        lemma_digits_end(b, s as nat);
    }
    let mut i = s;
    while i < bytes.len() && bytes[i] >= 48u8 && bytes[i] <= 57u8
        invariant
            s <= i <= digits_end(b, s as nat),
            digits_end(b, s as nat) == digits_end(b, i as nat),
            bytes@ == b,
        decreases b.len() - i,
    {
        proof {
            lemma_digits_end(b, i as nat + 1);
        }
        i = i + 1;
    }
    if i < bytes.len() && bytes[i] == 46u8 {
        i = i + 1;
        let f = i;
        proof {
            lemma_digits_end(b, f as nat);
        }
        while i < bytes.len() && bytes[i] >= 48u8 && bytes[i] <= 57u8
            invariant
                f <= i <= digits_end(b, f as nat),
                digits_end(b, f as nat) == digits_end(b, i as nat),
                bytes@ == b,
                f >= 1 && b[f - 1] == 46,
            decreases b.len() - i,
        {
            proof {
                lemma_digits_end(b, i as nat + 1);
            }
            i = i + 1;
        }
    }
    i
}

/// The texts of the numbers of `src`, one for each digit it holds, read
/// from that digit on: the texts whose readings `parse_rules` may look up.
pub fn number_texts(src: &str) -> (r: Vec<String>)
    ensures
        r@.map_values(|t: String| t@) == number_texts_from(src.spec_bytes(), 0),
{
    let ghost b = src.spec_bytes();
    let bytes = src.as_bytes();
    proof {
        lemma_str_valid(src);
    }
    let mut texts: Vec<String> = Vec::new();
    let mut s: usize = 0;
    assert(texts@.map_values(|t: String| t@) =~= Seq::<Seq<char>>::empty());
    while s < bytes.len()
        invariant
            s <= bytes@.len(),
            bytes@ == b,
            b == src.spec_bytes(),
            valid_utf8(b),
            texts@.map_values(|t: String| t@) + number_texts_from(b, s as nat) == number_texts_from(b, 0),
        decreases b.len() - s,
    {
        let ghost before = texts@.map_values(|t: String| t@);
        if bytes[s] >= 48u8 && bytes[s] <= 57u8 {
            let e = number_end_at(bytes, s);
            proof {
                lemma_boundary_at_ascii(b, s as int);
                lemma_boundary_after_ascii(b, e as int);
            }
            texts.push(slice_str(src, s, e).to_owned());
            assert(texts@.map_values(|t: String| t@) =~= before.push(text_of(b, s as nat, e as nat)));
            assert(number_texts_from(b, s as nat) == seq![text_of(b, s as nat, e as nat)] + number_texts_from(b, s as nat + 1));
        } else {
            assert(number_texts_from(b, s as nat) =~= number_texts_from(b, s as nat + 1));
        }
        s = s + 1;
    }
    assert(texts@.map_values(|t: String| t@) + Seq::<Seq<char>>::empty() =~= texts@.map_values(|t: String| t@));
    texts
}

/// Parses a rules file: every rule in order, or the first error with its
/// exact location. `numbers` gives the reading of each number text; see
/// `number_texts` for the texts it needs to hold.
pub fn parse_rules(src: &str, numbers: &[(String, NumberValue)]) -> (r: Result<Vec<RateLimit>, Diagnostic>)
    ensures
        rules_result(r) == rules_of(src.spec_bytes(), number_table(numbers@)),
{
    let ghost b = src.spec_bytes();
    let ghost nums = number_table(numbers@);
    let mut parser = match Parser::new(src, numbers) {
        Ok(p) => p,
        Err(e) => {
            return Err(e);
        },
    };
    let mut rules: Vec<RateLimit> = Vec::new();
    assert(rule_views(rules@) =~= Seq::<RuleView>::empty());
    while !matches!(parser.cur.kind, TokenKind::Eof)
        invariant
            parser.wf(),
            parser.bytes() == b,
            parser.table() == nums,
            nums == number_table(numbers@),
            b == src.spec_bytes(),
            rules_of(b, nums) == parse_rules_from(b, nums, parser.cur@, rule_views(rules@)),
        decreases b.len() + 1 - parser.cur@.offset,
    {
        let ghost cur = parser.cur@;
        let ghost acc = rule_views(rules@);
        proof {
            lemma_parse_rule_progress(b, nums, cur);
        }
        let rule = match parser.parse_rule() {
            Ok(rule) => rule,
            Err(e) => {
                return Err(e);
            },
        };
        if has_named(&rules, &rule.name) {
            let mut message = String::new();
            message.append("rule '");
            message.append(rule.name.as_str());
            message.append("' is defined more than once");
            let len = rule.name.as_str().len();
            return Err(
                Diagnostic {
                    message,
                    offset: rule.name_offset,
                    len,
                    help: Some(String::from_str("rule names must be unique within a file")),
                    secondary: None,
                },
            );
        }
        rules.push(rule);
        assert(rule_views(rules@) =~= acc.push(rule@));
    }
    Ok(rules)
}

/// Whether one of `rules` is named `name`.
fn has_named(rules: &Vec<RateLimit>, name: &String) -> (r: bool)
    ensures
        r == has_rule_named(rule_views(rules@), name@),
{
    let mut i: usize = 0;
    while i < rules.len()
        invariant
            i <= rules@.len(),
            forall|j: int| 0 <= j < i ==> rules@[j]@.name != name@,
        decreases rules@.len() - i,
    {
        if rules[i].name == *name {
            assert(rule_views(rules@)[i as int].name == name@);
            return true;
        }
        i = i + 1;
    }
    assert forall|j: int| 0 <= j < rule_views(rules@).len() implies rule_views(rules@)[j].name
        != name@ by {
        assert(rule_views(rules@)[j] == rules@[j]@);
    }
    false
}

/// A number token, as the parser hands it on: its value when it is a whole
/// `u32`, and where it stands.
struct NumTok {
    whole: Option<u32>,
    offset: usize,
    len: usize,
}

struct Parser<'a> {
    lexer: Lexer<'a>,
    cur: Token,
}

impl<'a> Parser<'a> {
    spec fn wf(&self) -> bool {
        &&& self.lexer.wf()
        &&& self.lexer.pos == tok_end(self.cur@)
        &&& (self.cur@.kind !is Eof ==> self.cur@.len >= 1)
        &&& (self.cur@.kind matches Tok::Ident(n) ==> byte_len(n) == self.cur@.len)
    }

    spec fn bytes(&self) -> Seq<u8> {
        self.lexer.src@
    }

    spec fn table(&self) -> Seq<(Seq<char>, NumberView)> {
        self.lexer.table()
    }

    fn new(src: &'a str, numbers: &'a [(String, NumberValue)]) -> (r: Result<Self, Diagnostic>)
        ensures
            match r {
                Ok(p) => p.wf() && p.bytes() == src.spec_bytes() && p.table() == number_table(numbers@) && lex(src.spec_bytes(), number_table(numbers@), 0) == Ok::<
                    TokenView,
                    DiagnosticView,
                >(p.cur@),
                Err(e) => lex(src.spec_bytes(), number_table(numbers@), 0) == Err::<TokenView, DiagnosticView>(e@),
            },
    {
        let mut lexer = Lexer::new(src, numbers);
        let cur = match lexer.next_token() {
            Ok(t) => t,
            Err(e) => {
                return Err(e);
            },
        };
        proof {
            lemma_lex_bounds(src.spec_bytes(), number_table(numbers@), 0);
            lemma_lex_ident_len(src.spec_bytes(), number_table(numbers@), 0);
        }
        Ok(Parser { lexer, cur })
    }

    /// Moves to the next token and hands back the current one.
    fn bump(&mut self) -> (r: Result<Token, Diagnostic>)
        requires
            old(self).wf(),
        ensures
            final(self).bytes() == old(self).bytes(),
            final(self).table() == old(self).table(),
            match r {
                Ok(t) => t@ == old(self).cur@ && final(self).wf() && lex(
                    old(self).bytes(), old(self).table(),
                    tok_end(old(self).cur@),
                ) == Ok::<TokenView, DiagnosticView>(final(self).cur@),
                Err(e) => lex(old(self).bytes(), old(self).table(), tok_end(old(self).cur@)) == Err::<
                    TokenView,
                    DiagnosticView,
                >(e@),
            },
    {
        let mut next = match self.lexer.next_token() {
            Ok(t) => t,
            Err(e) => {
                return Err(e);
            },
        };
        proof {
            lemma_lex_bounds(self.bytes(), self.table(), tok_end(self.cur@));
            lemma_lex_ident_len(self.bytes(), self.table(), tok_end(self.cur@));
        }
        std::mem::swap(&mut self.cur, &mut next);
        Ok(next)
    }

    fn unexpected(&self, what: &str) -> (d: Diagnostic)
        ensures
            d@ == unexpected(self.cur@, what@),
    {
        let mut message = String::new();
        message.append("expected ");
        message.append(what);
        message.append(", found ");
        message.append(describe(&self.cur.kind).as_str());
        let len = if self.cur.len > 1 {
            self.cur.len
        } else {
            1
        };
        Diagnostic { message, offset: self.cur.offset, len, help: None, secondary: None }
    }

    fn expect_keyword(&mut self, kw: &str) -> (r: Result<(), Diagnostic>)
        requires
            old(self).wf(),
        ensures
            final(self).bytes() == old(self).bytes(),
            final(self).table() == old(self).table(),
            old(self).cur@.kind == Tok::Ident(kw@) ==> match r {
                Ok(_) => final(self).wf() && lex(old(self).bytes(), old(self).table(), tok_end(old(self).cur@)) == Ok::<
                    TokenView,
                    DiagnosticView,
                >(final(self).cur@),
                Err(e) => lex(old(self).bytes(), old(self).table(), tok_end(old(self).cur@)) == Err::<
                    TokenView,
                    DiagnosticView,
                >(e@),
            },
            old(self).cur@.kind != Tok::Ident(kw@) ==> (r matches Err(e) && e@ == diag(
                "expected keyword '"@ + kw@ + "', found "@ + described(old(self).cur@.kind),
                old(self).cur@.offset,
                at_least_one(old(self).cur@.len),
                None,
            )),
    {
        let matched = match &self.cur.kind {
            TokenKind::Ident(s) => str_eq(s.as_str(), kw),
            _ => false,
        };
        if matched {
            match self.bump() {
                Ok(_) => Ok(()),
                Err(e) => Err(e),
            }
        } else {
            let mut message = String::new();
            message.append("expected keyword '");
            message.append(kw);
            message.append("', found ");
            message.append(describe(&self.cur.kind).as_str());
            let len = if self.cur.len > 1 {
                self.cur.len
            } else {
                1
            };
            Err(Diagnostic { message, offset: self.cur.offset, len, help: None, secondary: None })
        }
    }

    fn expect_ident(&mut self, what: &str) -> (r: Result<Token, Diagnostic>)
        requires
            old(self).wf(),
        ensures
            final(self).bytes() == old(self).bytes(),
            final(self).table() == old(self).table(),
            old(self).cur@.kind is Ident ==> match r {
                Ok(t) => t@ == old(self).cur@ && final(self).wf() && lex(
                    old(self).bytes(), old(self).table(),
                    tok_end(old(self).cur@),
                ) == Ok::<TokenView, DiagnosticView>(final(self).cur@),
                Err(e) => lex(old(self).bytes(), old(self).table(), tok_end(old(self).cur@)) == Err::<
                    TokenView,
                    DiagnosticView,
                >(e@),
            },
            old(self).cur@.kind !is Ident ==> (r matches Err(e) && e@ == unexpected(
                old(self).cur@,
                what@,
            )),
    {
        match &self.cur.kind {
            TokenKind::Ident(_) => self.bump(),
            _ => Err(self.unexpected(what)),
        }
    }

    fn expect_number(&mut self, what: &str) -> (r: Result<NumTok, Diagnostic>)
        requires
            old(self).wf(),
        ensures
            final(self).bytes() == old(self).bytes(),
            final(self).table() == old(self).table(),
            old(self).cur@.kind is Number ==> match r {
                Ok(n) => n.whole == old(self).cur@.kind->whole && n.offset == old(self).cur@.offset
                    && n.len == old(self).cur@.len && final(self).wf() && lex(
                    old(self).bytes(), old(self).table(),
                    tok_end(old(self).cur@),
                ) == Ok::<TokenView, DiagnosticView>(final(self).cur@),
                Err(e) => lex(old(self).bytes(), old(self).table(), tok_end(old(self).cur@)) == Err::<
                    TokenView,
                    DiagnosticView,
                >(e@),
            },
            old(self).cur@.kind !is Number ==> (r matches Err(e) && e@ == unexpected(
                old(self).cur@,
                what@,
            )),
    {
        match &self.cur.kind {
            TokenKind::Number { whole, .. } => {
                let whole = *whole;
                let tok = match self.bump() {
                    Ok(t) => t,
                    Err(e) => {
                        return Err(e);
                    },
                };
                Ok(NumTok { whole, offset: tok.offset, len: tok.len })
            },
            _ => Err(self.unexpected(what)),
        }
    }

    /// Expects a punctuation token of kind `kind`.
    fn expect(&mut self, kind: TokenKind, what: &str) -> (r: Result<Token, Diagnostic>)
        requires
            old(self).wf(),
            kind@ == Tok::Slash || kind@ == Tok::Equals || kind@ == Tok::LBrace || kind@
                == Tok::RBrace,
        ensures
            final(self).bytes() == old(self).bytes(),
            final(self).table() == old(self).table(),
            old(self).cur@.kind == kind@ ==> match r {
                Ok(t) => t@ == old(self).cur@ && final(self).wf() && lex(
                    old(self).bytes(), old(self).table(),
                    tok_end(old(self).cur@),
                ) == Ok::<TokenView, DiagnosticView>(final(self).cur@),
                Err(e) => lex(old(self).bytes(), old(self).table(), tok_end(old(self).cur@)) == Err::<
                    TokenView,
                    DiagnosticView,
                >(e@),
            },
            old(self).cur@.kind != kind@ ==> (r matches Err(e) && e@ == unexpected(
                old(self).cur@,
                what@,
            )),
    {
        let same = match (&self.cur.kind, &kind) {
            (TokenKind::Slash, TokenKind::Slash) => true,
            (TokenKind::Equals, TokenKind::Equals) => true,
            (TokenKind::LBrace, TokenKind::LBrace) => true,
            (TokenKind::RBrace, TokenKind::RBrace) => true,
            _ => false,
        };
        if same {
            self.bump()
        } else {
            Err(self.unexpected(what))
        }
    }

    /// Parses the value of a `rate` field: `<count> / <unit>`.
    fn parse_rate(&mut self) -> (r: Result<(u32, u64), Diagnostic>)
        requires
            old(self).wf(),
        ensures
            final(self).bytes() == old(self).bytes(),
            final(self).table() == old(self).table(),
            match (r, parse_rate(old(self).bytes(), old(self).table(), old(self).cur@)) {
                (Ok((c, p)), Ok(((c2, p2), next))) => c == c2 && p as nat == p2 && final(self).wf()
                    && final(self).cur@ == next,
                (Err(e), Err(ev)) => e@ == ev,
                _ => false,
            },
    {
        reveal(parse_rate);
        let n_tok = match self.expect_number("a request count") {
            Ok(n) => n,
            Err(e) => {
                return Err(e);
            },
        };
        match self.expect(TokenKind::Slash, "'/'") {
            Ok(_) => {},
            Err(e) => {
                return Err(e);
            },
        }
        let unit_tok = match self.expect_ident("a time unit (sec, min, or hour)") {
            Ok(t) => t,
            Err(e) => {
                return Err(e);
            },
        };
        let unit_name = match &unit_tok.kind {
            TokenKind::Ident(s) => s.clone(),
            _ => {
                assert(false);
                String::new()
            },
        };
        let secs = match unit_secs(unit_name.as_str()) {
            Some(secs) => secs,
            None => {
                let mut message = String::new();
                message.append("unknown time unit '");
                message.append(unit_name.as_str());
                message.append("'");
                return Err(
                    Diagnostic {
                        message,
                        offset: unit_tok.offset,
                        len: unit_tok.len,
                        help: Some(String::from_str("expected one of: sec, min, hour")),
                        secondary: None,
                    },
                );
            },
        };
        let count = match expect_whole(n_tok.whole, n_tok.offset, n_tok.len, "request count") {
            Ok(c) => c,
            Err(e) => {
                return Err(e);
            },
        };
        Ok((count, secs))
    }

    /// Parses the value of a `burst` field.
    fn parse_burst(&mut self) -> (r: Result<u32, Diagnostic>)
        requires
            old(self).wf(),
        ensures
            final(self).bytes() == old(self).bytes(),
            final(self).table() == old(self).table(),
            match (r, parse_burst(old(self).bytes(), old(self).table(), old(self).cur@)) {
                (Ok(w), Ok((w2, next))) => w == w2 && final(self).wf() && final(self).cur@ == next,
                (Err(e), Err(ev)) => e@ == ev,
                _ => false,
            },
    {
        reveal(parse_burst);
        let n_tok = match self.expect_number("a burst size") {
            Ok(n) => n,
            Err(e) => {
                return Err(e);
            },
        };
        expect_whole(n_tok.whole, n_tok.offset, n_tok.len, "burst size")
    }

    /// Parses one field of rule `name`, updating the rate and the burst.
    fn parse_field(
        &mut self,
        name: &String,
        count: &mut Option<u32>,
        period: &mut Option<u64>,
        burst: &mut Option<u32>,
    ) -> (r: Result<(), Diagnostic>)
        requires
            old(self).wf(),
            *old(count) is Some <==> *old(period) is Some,
        ensures
            final(self).bytes() == old(self).bytes(),
            final(self).table() == old(self).table(),
            match (
                r,
                parse_field(
                    old(self).bytes(), old(self).table(),
                    name@,
                    old(self).cur@,
                    rate_of(*old(count), *old(period)),
                    *old(burst),
                ),
            ) {
                (Ok(_), Ok((rate2, burst2, next))) => final(self).wf() && final(self).cur@ == next
                    && rate_of(*final(count), *final(period)) == rate2 && *final(burst) == burst2
                    && (*final(count) is Some <==> *final(period) is Some),
                (Err(e), Err(ev)) => e@ == ev,
                _ => false,
            },
    {
        reveal(parse_field);
        let field_tok = match self.expect_ident("a field name ('rate' or 'burst')") {
            Ok(t) => t,
            Err(e) => {
                return Err(e);
            },
        };
        let field_name = match &field_tok.kind {
            TokenKind::Ident(s) => s.clone(),
            _ => {
                assert(false);
                String::new()
            },
        };
        match self.expect(TokenKind::Equals, "'='") {
            Ok(_) => {},
            Err(e) => {
                return Err(e);
            },
        }
        proof {
            reveal_strlit("rate");
            reveal_strlit("burst");
        }
        if str_eq(field_name.as_str(), "rate") {
            match self.parse_rate() {
                Ok((c, p)) => {
                    *count = Some(c);
                    *period = Some(p);
                    Ok(())
                },
                Err(e) => Err(e),
            }
        } else if str_eq(field_name.as_str(), "burst") {
            match self.parse_burst() {
                Ok(w) => {
                    *burst = Some(w);
                    Ok(())
                },
                Err(e) => Err(e),
            }
        } else {
            let mut message = String::new();
            message.append("unknown field '");
            message.append(field_name.as_str());
            message.append("' in rule '");
            message.append(name.as_str());
            message.append("'");
            Err(
                Diagnostic {
                    message,
                    offset: field_tok.offset,
                    len: field_tok.len,
                    help: Some(String::from_str("expected 'rate' or 'burst'")),
                    secondary: None,
                },
            )
        }
    }

    fn parse_rule(&mut self) -> (r: Result<RateLimit, Diagnostic>)
        requires
            old(self).wf(),
        ensures
            r matches Ok(rule) ==> byte_len(rule.name@) <= usize::MAX,
            final(self).bytes() == old(self).bytes(),
            final(self).table() == old(self).table(),
            match (r, parse_rule(old(self).bytes(), old(self).table(), old(self).cur@)) {
                (Ok(rule), Ok((rv, next))) => rule@ == rv && final(self).wf() && final(self).cur@
                    == next,
                (Err(e), Err(ev)) => e@ == ev,
                _ => false,
            },
    {
        let ghost b = self.bytes();
        let ghost cur0 = self.cur@;
        proof {
            reveal_strlit("rule");
        }
        match self.expect_keyword("rule") {
            Ok(_) => {},
            Err(e) => {
                return Err(e);
            },
        }
        let name_tok = match self.expect_ident("a rule name") {
            Ok(t) => t,
            Err(e) => {
                return Err(e);
            },
        };
        let name = match name_tok.kind {
            TokenKind::Ident(s) => s,
            _ => {
                assert(false);
                String::new()
            },
        };
        let name_offset = name_tok.offset;
        match self.expect(TokenKind::LBrace, "'{'") {
            Ok(_) => {},
            Err(e) => {
                return Err(e);
            },
        }
        self.parse_body(name, name_offset)
    }

    /// Parses the fields of rule `name` up to and including the closing
    /// brace.
    fn parse_body(&mut self, name: String, name_offset: usize) -> (r: Result<RateLimit, Diagnostic>)
        requires
            old(self).wf(),
            byte_len(name@) <= usize::MAX,
        ensures
            r matches Ok(rule) ==> byte_len(rule.name@) <= usize::MAX,
            final(self).bytes() == old(self).bytes(),
            final(self).table() == old(self).table(),
            match (r, parse_fields(old(self).bytes(), old(self).table(), name@, name_offset as nat, old(self).cur@, None, None)) {
                (Ok(rule), Ok((rv, next))) => rule@ == rv && final(self).wf() && final(self).cur@
                    == next,
                (Err(e), Err(ev)) => e@ == ev,
                _ => false,
            },
    {
        let ghost b = self.bytes();
        let ghost nums = self.table();
        let ghost cur0 = self.cur@;
        let mut count: Option<u32> = None;
        let mut period: Option<u64> = None;
        let mut burst: Option<u32> = None;
        while !matches!(self.cur.kind, TokenKind::RBrace)
            invariant
                self.wf(),
                self.bytes() == b,
                self.table() == nums,
                b == old(self).bytes(),
                nums == old(self).table(),
                byte_len(name@) <= usize::MAX,
                cur0 == old(self).cur@,
                count is Some <==> period is Some,
                parse_fields(b, nums, name@, name_offset as nat, cur0, None, None) == parse_fields(
                    b, nums,
                    name@,
                    name_offset as nat,
                    self.cur@,
                    rate_of(count, period),
                    burst,
                ),
            decreases b.len() + 1 - self.cur@.offset,
        {
            let ghost cur = self.cur@;
            proof {
                lemma_field_progress(b, nums, name@, cur, rate_of(count, period), burst);
            }
            if matches!(self.cur.kind, TokenKind::Eof) {
                let mut help = String::new();
                help.append("rule '");
                help.append(name.as_str());
                help.append("' is missing a closing '}'");
                return Err(
                    Diagnostic {
                        message: String::from_str("unexpected end of file while parsing rule"),
                        offset: self.cur.offset,
                        len: 1,
                        help: Some(help),
                        secondary: None,
                    },
                );
            }
            match self.parse_field(&name, &mut count, &mut period, &mut burst) {
                Ok(()) => {},
                Err(e) => {
                    return Err(e);
                },
            }
        }
        match self.bump() {
            Ok(_) => {},
            Err(e) => {
                return Err(e);
            },
        }
        let count = match count {
            Some(c) => c,
            None => {
                let mut message = String::new();
                message.append("rule '");
                message.append(name.as_str());
                message.append("' is missing a 'rate' field");
                let len = name.as_str().len();
                return Err(
                    Diagnostic {
                        message,
                        offset: name_offset,
                        len,
                        help: Some(String::from_str("add a line like 'rate = 5/sec'")),
                        secondary: None,
                    },
                );
            },
        };
        let period_secs = match period {
            Some(p) => p,
            None => 0,
        };
        let burst = match burst {
            Some(b) => b,
            None => 0,
        };
        Ok(RateLimit { name, name_offset, count, period_secs, burst })
    }
}

/// The rate that a count and a period stand for.
pub open spec fn rate_of(count: Option<u32>, period: Option<u64>) -> Option<(u32, nat)> {
    match (count, period) {
        (Some(c), Some(p)) => Some((c, p as nat)),
        _ => None,
    }
}

/// The length in seconds of the time unit `unit`, if it is one.
fn unit_secs(unit: &str) -> (r: Option<u64>)
    ensures
        match (r, unit_seconds(unit@)) {
            (Some(x), Some(y)) => x == y,
            (None, None) => true,
            _ => false,
        },
{
    if str_eq(unit, "sec") || str_eq(unit, "s") {
        Some(1)
    } else if str_eq(unit, "min") || str_eq(unit, "m") {
        Some(60)
    } else if str_eq(unit, "hour") || str_eq(unit, "h") {
        Some(3600)
    } else {
        None
    }
}

/// The number as a whole `u32`, or the error saying that `what` must be one.
fn expect_whole(whole: Option<u32>, offset: usize, len: usize, what: &str) -> (r: Result<
    u32,
    Diagnostic,
>)
    ensures
        match whole {
            Some(v) => r == Ok::<u32, Diagnostic>(v),
            None => r matches Err(e) && e@ == diag(
                what@ + " must be a whole number"@,
                offset as nat,
                len as nat,
                Some("fractional or negative values are not supported"@),
            ),
        },
{
    match whole {
        Some(v) => Ok(v),
        None => {
            let mut message = String::new();
            message.append(what);
            message.append(" must be a whole number");
            Err(
                Diagnostic {
                    message,
                    offset,
                    len,
                    help: Some(String::from_str("fractional or negative values are not supported")),
                    secondary: None,
                },
            )
        },
    }
}

fn ident_byte(c: u8) -> (r: bool)
    ensures
        r == is_ident_char(c),
{
    (c >= 97u8 && c <= 122u8) || (c >= 65u8 && c <= 90u8) || (c >= 48u8 && c <= 57u8) || c == 95u8
}

} // verus!
