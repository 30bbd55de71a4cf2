//! Building output text: decimal numbers, repeated padding and byte-range
//! slices of UTF-8 source text.

use vstd::prelude::*;
use vstd::utf8::*;
use vstd::string::StringSliceAdditionalSpecFns;

verus! {

/// The ASCII digit for `d` (`0 <= d < 10`).
pub open spec fn digit_char(d: nat) -> char {
    ((d + 48) as u8) as char
}

/// The decimal representation of `n`, without leading zeros.
pub open spec fn decimal(n: nat) -> Seq<char>
    decreases n,
{
    if n < 10 {
        seq![digit_char(n)]
    } else {
        decimal(n / 10).push(digit_char(n % 10))
    }
}

/// The number that a string of decimal digits spells, most significant
/// digit first.
pub open spec fn numeral_value(s: Seq<char>) -> int
    decreases s.len(),
{
    if s.len() == 0 {
        0
    } else {
        numeral_value(s.drop_last()) * 10 + (s.last() as int - 48)
    }
}

/// `decimal(n)` is the base-10 numeral of `n`: a non-empty string of the
/// characters `'0'` to `'9'` that spells `n` back, and starts with `'0'`
/// only for 0.
pub proof fn lemma_decimal_is_numeral(n: nat)
    ensures
        decimal(n).len() >= 1,
        forall|i: int| 0 <= i < decimal(n).len() ==> '0' <= #[trigger] decimal(n)[i] <= '9',
        numeral_value(decimal(n)) == n,
        decimal(n)[0] == '0' ==> n == 0,
    decreases n,
{
    let d = n % 10;
    assert(digit_char(d) as int == d + 48) by {
        assert(((d + 48) as u8) as int == d + 48);
    }
    if n < 10 {
        assert(d == n);
        assert(decimal(n) == seq![digit_char(n)]);
        assert(decimal(n).drop_last() =~= Seq::<char>::empty());
        assert(decimal(n).last() == digit_char(n));
        assert(numeral_value(Seq::<char>::empty()) == 0);
        assert(numeral_value(decimal(n)) == numeral_value(decimal(n).drop_last()) * 10 + (
        decimal(n).last() as int - 48));
    } else {
        lemma_decimal_is_numeral(n / 10);
        let prev = decimal(n / 10);
        assert(decimal(n) == prev.push(digit_char(d)));
        assert(decimal(n).drop_last() =~= prev);
        assert(decimal(n).last() == digit_char(d));
        assert(numeral_value(decimal(n)) == numeral_value(prev) * 10 + (digit_char(d) as int - 48));
        assert(n == (n / 10) * 10 + d);
        assert forall|i: int| 0 <= i < decimal(n).len() implies '0' <= #[trigger] decimal(n)[i] <= '9' by {
            if i < prev.len() {
                assert(decimal(n)[i] == prev[i]);
            }
        }
        assert(decimal(n)[0] == prev[0]);
    }
}

fn digit_str(d: usize) -> (s: &'static str)
    requires
        d < 10,
    ensures
        s@ == seq![digit_char(d as nat)],
{
    match d {
        0 => { proof { reveal_strlit("0"); } "0" },
        1 => { proof { reveal_strlit("1"); } "1" },
        2 => { proof { reveal_strlit("2"); } "2" },
        3 => { proof { reveal_strlit("3"); } "3" },
        4 => { proof { reveal_strlit("4"); } "4" },
        5 => { proof { reveal_strlit("5"); } "5" },
        6 => { proof { reveal_strlit("6"); } "6" },
        7 => { proof { reveal_strlit("7"); } "7" },
        8 => { proof { reveal_strlit("8"); } "8" },
        _ => { proof { reveal_strlit("9"); } "9" },
    }
}

/// Appends the decimal representation of `n` to `out`.
pub fn push_decimal(out: &mut String, n: u128)
    ensures
        final(out)@ == old(out)@ + decimal(n as nat),
    decreases n,
{
    if n >= 10 {
        push_decimal(out, n / 10);
    }
    let d: u128 = n % 10;
    out.append(digit_str(d as usize));
}

/// `s` repeated `n` times.
pub open spec fn repeat(s: Seq<char>, n: nat) -> Seq<char>
    decreases n,
{
    if n == 0 {
        Seq::empty()
    } else {
        repeat(s, (n - 1) as nat) + s
    }
}

/// Appends `n` copies of `s` to `out`.
pub fn push_repeat(out: &mut String, s: &str, n: usize)
    ensures
        final(out)@ == old(out)@ + repeat(s@, n as nat),
{
    let mut i: usize = 0;
    while i < n
        invariant
            i <= n,
            out@ == old(out)@ + repeat(s@, i as nat),
        decreases n - i,
    {
        out.append(s);
        i = i + 1;
        assert(out@ =~= old(out)@ + repeat(s@, i as nat));
    }
}

/// `n` space characters.
pub open spec fn spaces(n: nat) -> Seq<char> {
    repeat(seq![' '], n)
}

/// `n` spaces are `n` characters.
pub proof fn lemma_spaces_len(n: nat)
    ensures
        spaces(n).len() == n,
    decreases n,
{
    if n > 0 {
        lemma_spaces_len((n - 1) as nat);
    }
}

/// Appends `n` spaces to `out`.
pub fn push_spaces(out: &mut String, n: usize)
    ensures
        final(out)@ == old(out)@ + spaces(n as nat),
{
    proof {
        reveal_strlit(" ");
        assert(" "@ =~= seq![' ']);
    }
    push_repeat(out, " ", n);
}

/// The number of digits in the decimal representation of `n`.
pub fn decimal_len(n: u128) -> (r: usize)
    ensures
        r == decimal(n as nat).len(),
    decreases n,
{
    if n < 10 {
        1
    } else {
        let r = decimal_len(n / 10);
        proof {
            lemma_decimal_len_bound(n as nat);
        }
        r + 1
    }
}

/// `10^k`.
pub open spec fn pow10(k: nat) -> nat
    decreases k,
{
    if k == 0 {
        1
    } else {
        10 * pow10((k - 1) as nat)
    }
}

/// Numbers below 2^128 have at most 39 decimal digits.
pub proof fn lemma_decimal_len_bound(n: nat)
    ensures
        1 <= decimal(n).len(),
        n < 0x1_0000_0000_0000_0000_0000_0000_0000_0000 ==> decimal(n).len() <= 39,
{
    reveal_with_fuel(pow10, 40);
    assert(pow10(39) > 0x1_0000_0000_0000_0000_0000_0000_0000_0000);
    lemma_decimal_len_le(n, 39);
}

/// `n < 10^k` bounds the length of its decimal representation by `max(k, 1)`.
pub proof fn lemma_decimal_len_le(n: nat, k: nat)
    ensures
        1 <= decimal(n).len(),
        n < pow10(k) ==> decimal(n).len() <= if k == 0 { 1 } else { k },
    decreases n,
{
    if n >= 10 {
        if k >= 1 {
            lemma_decimal_len_le(n / 10, (k - 1) as nat);
        } else {
            lemma_decimal_len_le(n / 10, 0);
        }
    }
}

/// The bytes of a string slice are valid UTF-8.
pub proof fn lemma_str_valid(s: &str)
    ensures
        valid_utf8(s.spec_bytes()),
{
    encode_utf8_valid_utf8(s@);
}

/// A string's characters are the decoding of its bytes.
pub proof fn lemma_str_decode(s: &str)
    ensures
        s@ == decode_utf8(s.spec_bytes()),
{
    encode_utf8_decode_utf8(s@);
}

/// An ASCII byte of valid UTF-8 starts a character.
pub proof fn lemma_boundary_at_ascii(b: Seq<u8>, i: int)
    requires
        valid_utf8(b),
        0 <= i < b.len(),
        b[i] < 0x80,
    ensures
        is_char_boundary(b, i),
{
    is_char_boundary_iff_not_is_continuation_byte(b, i);
}

/// In valid UTF-8, the position right after an ASCII byte starts a character
/// (or is the end).
pub proof fn lemma_boundary_after_ascii(b: Seq<u8>, i: int)
    requires
        valid_utf8(b),
        0 < i <= b.len(),
        b[i - 1] < 0x80,
    ensures
        is_char_boundary(b, i),
{
    if i == b.len() {
        is_char_boundary_start_end_of_seq(b);
    } else {
        lemma_boundary_at_ascii(b, i - 1);
        valid_utf8_split(b, i - 1);
        let s = b.subrange(i - 1, b.len() as int);
        let t = b.subrange(i, b.len() as int);
        assert(s[0] == b[i - 1]);
        assert(length_of_first_scalar(s) == 1);
        assert(pop_first_scalar(s) =~= t);
        assert(valid_utf8(t));
        assert(valid_first_scalar(t));
        assert(t[0] == b[i]);
        assert(!is_continuation_byte(b[i]));
        is_char_boundary_iff_not_is_continuation_byte(b, i);
    }
}

/// The bytes `start..end` of `s`, as a string slice; both ends must fall on
/// character boundaries.
pub fn slice_str<'a>(s: &'a str, start: usize, end: usize) -> (r: &'a str)
    requires
        start <= end <= s.spec_bytes().len(),
        is_char_boundary(s.spec_bytes(), start as int),
        is_char_boundary(s.spec_bytes(), end as int),
    ensures
        r.spec_bytes() == s.spec_bytes().subrange(start as int, end as int),
        r@ == decode_utf8(s.spec_bytes().subrange(start as int, end as int)),
{
    let ghost b = s.spec_bytes();
    proof {
        lemma_str_valid(s);
    }
    let (pre, _) = s.split_at(end);
    proof {
        let pb = pre.spec_bytes();
        valid_utf8_split(b, end as int);
        assert(pb =~= b.subrange(0, end as int));
        if start == end {
            is_char_boundary_start_end_of_seq(pb);
        } else {
            is_char_boundary_iff_not_is_continuation_byte(b, start as int);
            is_char_boundary_iff_not_is_continuation_byte(pb, start as int);
        }
    }
    let (_, r) = pre.split_at(start);
    proof {
        assert(r.spec_bytes() =~= b.subrange(start as int, end as int));
        lemma_str_decode(r);
    }
    r
}

/// Whether two string slices hold the same text.
pub fn str_eq(a: &str, b: &str) -> (r: bool)
    ensures
        r == (a@ == b@),
{
    let x = a.as_bytes();
    let y = b.as_bytes();
    proof {
        lemma_str_decode(a);
        lemma_str_decode(b);
    }
    if x.len() != y.len() {
        return false;
    }
    let mut i: usize = 0;
    while i < x.len()
        invariant
            i <= x@.len(),
            x@.len() == y@.len(),
            x@ == a.spec_bytes(),
            y@ == b.spec_bytes(),
            forall|j: int| 0 <= j < i ==> x@[j] == y@[j],
        decreases x@.len() - i,
    {
        if x[i] != y[i] {
            return false;
        }
        i = i + 1;
    }
    assert(x@ =~= y@);
    true
}

/// Appends `c` to `out` with std's `String::push`. Trusted, not proved: the
/// contract claims what std documents, that the text afterwards is the text
/// before with `c` added at its end.
#[verifier::external_body]
pub(crate) fn push_char(out: &mut String, c: char)
    ensures
        final(out)@ == old(out)@.push(c),
{
    out.push(c);
}

} // verus!
