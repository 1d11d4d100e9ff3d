//! Character and string helpers: digit runs, decimal numbers, whitespace
//! trimming, and building `String`s from bytes.

use vstd::prelude::*;
use vstd::string::StrSliceExecFns;
use vstd::utf8::{decode_utf8, encode_utf8, is_ascii_chars, is_ascii_chars_encode_utf8, encode_utf8_decode_utf8, encode_utf8_valid_utf8, valid_utf8};

verus! {

pub open spec fn is_ascii_digit(c: char) -> bool {
    '0' <= c <= '9'
}

pub open spec fn digit_of(c: char) -> nat {
    (c as int - '0' as int) as nat
}

/// The number of ASCII digits at the front of `s`.
pub open spec fn digit_run(s: Seq<char>) -> nat
    decreases s.len(),
{
    if s.len() > 0 && is_ascii_digit(s[0]) {
        1 + digit_run(s.drop_first())
    } else {
        0
    }
}

/// The value of a run of decimal digits.
pub open spec fn decimal_value(d: Seq<char>) -> nat
    decreases d.len(),
{
    if d.len() == 0 {
        0
    } else {
        decimal_value(d.drop_last()) * 10 + digit_of(d.last())
    }
}

pub proof fn lemma_digit_run(s: Seq<char>)
    ensures
        digit_run(s) <= s.len(),
        forall|i: int| 0 <= i < digit_run(s) ==> is_ascii_digit(#[trigger] s[i]),
        digit_run(s) < s.len() ==> !is_ascii_digit(s[digit_run(s) as int]),
    decreases s.len(),
{
    if s.len() > 0 && is_ascii_digit(s[0]) {
        lemma_digit_run(s.drop_first());
        assert forall|i: int| 0 <= i < digit_run(s) implies is_ascii_digit(#[trigger] s[i]) by {
            if i > 0 {
                assert(s[i] == s.drop_first()[i - 1]);
            }
        }
        if digit_run(s) < s.len() {
            assert(s[digit_run(s) as int] == s.drop_first()[digit_run(s.drop_first()) as int]);
        }
    }
}

/// Pull a run of ASCII digits off the front of `s`: the digits and the rest.
pub fn take_digits(s: &str) -> (r: (&str, &str))
    ensures
        r.0@ == s@.take(digit_run(s@) as int),
        r.1@ == s@.skip(digit_run(s@) as int),
{
    proof {
        lemma_digit_run(s@);
    }
    let n = s.unicode_len();
    let mut end: usize = 0;
    while end < n && is_digit_char(s.get_char(end))
        invariant
            end <= n,
            n == s@.len(),
            end <= digit_run(s@),
            digit_run(s@) <= s@.len(),
            forall|i: int| 0 <= i < digit_run(s@) ==> is_ascii_digit(#[trigger] s@[i]),
            digit_run(s@) < s@.len() ==> !is_ascii_digit(s@[digit_run(s@) as int]),
        decreases n - end,
    {
        end += 1;
    }
    (s.substring_char(0, end), s.substring_char(end, n))
}

pub fn is_digit_char(c: char) -> (r: bool)
    ensures
        r == is_ascii_digit(c),
{
    '0' <= c && c <= '9'
}

/// Parse a non-empty run of decimal digits as a `usize`: `None` when the
/// value does not fit.
pub fn parse_decimal(d: &str) -> (r: Option<usize>)
    requires
        forall|i: int| 0 <= i < d@.len() ==> is_ascii_digit(#[trigger] d@[i]),
    ensures
        decimal_value(d@) <= usize::MAX ==> r == Some(decimal_value(d@) as usize),
        decimal_value(d@) > usize::MAX ==> r is None,
{
    let n = d.unicode_len();
    let mut v: usize = 0;
    let mut i: usize = 0;
    while i < n
        invariant
            i <= n,
            n == d@.len(),
            forall|j: int| 0 <= j < d@.len() ==> is_ascii_digit(#[trigger] d@[j]),
            v == decimal_value(d@.take(i as int)),
        decreases n - i,
    {
        let c = d.get_char(i);
        let digit = (c as u32 - '0' as u32) as usize;
        proof {
            let t = d@.take(i + 1);
            assert(t.drop_last() =~= d@.take(i as int));
            assert(t.last() == c);
            assert(is_ascii_digit(d@[i as int]));
            assert(digit == digit_of(c));
        }
        match v.checked_mul(10) {
            Some(w) => match w.checked_add(digit) {
                Some(x) => {
                    v = x;
                },
                None => {
                    proof {
                        lemma_decimal_prefix_monotone(d@, i + 1);
                    }
                    return None;
                },
            },
            None => {
                proof {
                    lemma_decimal_prefix_monotone(d@, i + 1);
                }
                return None;
            },
        }
        i += 1;
    }
    proof {
        assert(d@.take(i as int) =~= d@);
    }
    Some(v)
}

/// A prefix of a digit run is worth at most the whole run.
pub proof fn lemma_decimal_prefix_monotone(d: Seq<char>, k: int)
    requires
        0 <= k <= d.len(),
        forall|i: int| 0 <= i < d.len() ==> is_ascii_digit(#[trigger] d[i]),
    ensures
        decimal_value(d.take(k)) <= decimal_value(d),
    decreases d.len() - k,
{
    if k < d.len() {
        lemma_decimal_prefix_monotone(d, k + 1);
        let t = d.take(k + 1);
        assert(t.drop_last() =~= d.take(k));
        assert(decimal_value(t) == decimal_value(d.take(k)) * 10 + digit_of(t.last()));
    } else {
        assert(d.take(k) =~= d);
    }
}

// ── Whitespace ───────────────────────────────────────────────

/// Unicode `White_Space`, as `char::is_whitespace` defines it.
pub open spec fn is_white(c: char) -> bool {
    ||| '\t' <= c <= '\r'
    ||| c == ' '
    ||| c == '\u{85}'
    ||| c == '\u{a0}'
    ||| c == '\u{1680}'
    ||| '\u{2000}' <= c <= '\u{200a}'
    ||| c == '\u{2028}'
    ||| c == '\u{2029}'
    ||| c == '\u{202f}'
    ||| c == '\u{205f}'
    ||| c == '\u{3000}'
}

pub fn is_white_char(c: char) -> (r: bool)
    ensures
        r == is_white(c),
{
    ('\t' <= c && c <= '\r') || c == ' ' || c == '\u{85}' || c == '\u{a0}' || c == '\u{1680}'
        || ('\u{2000}' <= c && c <= '\u{200a}') || c == '\u{2028}' || c == '\u{2029}' || c
        == '\u{202f}' || c == '\u{205f}' || c == '\u{3000}'
}

/// The number of whitespace characters at the front of `s`.
pub open spec fn white_run(s: Seq<char>) -> nat
    decreases s.len(),
{
    if s.len() > 0 && is_white(s[0]) {
        1 + white_run(s.drop_first())
    } else {
        0
    }
}

/// `s` without its leading whitespace.
pub open spec fn trim_start_spec(s: Seq<char>) -> Seq<char> {
    s.skip(white_run(s) as int)
}

pub proof fn lemma_white_run(s: Seq<char>)
    ensures
        white_run(s) <= s.len(),
        forall|i: int| 0 <= i < white_run(s) ==> is_white(#[trigger] s[i]),
        white_run(s) < s.len() ==> !is_white(s[white_run(s) as int]),
    decreases s.len(),
{
    if s.len() > 0 && is_white(s[0]) {
        lemma_white_run(s.drop_first());
        assert forall|i: int| 0 <= i < white_run(s) implies is_white(#[trigger] s[i]) by {
            if i > 0 {
                assert(s[i] == s.drop_first()[i - 1]);
            }
        }
        if white_run(s) < s.len() {
            assert(s[white_run(s) as int] == s.drop_first()[white_run(s.drop_first()) as int]);
        }
    }
}

/// `s` with leading whitespace removed.
pub fn trim_start(s: &str) -> (r: &str)
    ensures
        r@ == trim_start_spec(s@),
{
    proof {
        lemma_white_run(s@);
    }
    let n = s.unicode_len();
    let mut k: usize = 0;
    while k < n && is_white_char(s.get_char(k))
        invariant
            k <= n,
            n == s@.len(),
            k <= white_run(s@),
            white_run(s@) <= s@.len(),
            forall|i: int| 0 <= i < white_run(s@) ==> is_white(#[trigger] s@[i]),
            white_run(s@) < s@.len() ==> !is_white(s@[white_run(s@) as int]),
        decreases n - k,
    {
        k += 1;
    }
    s.substring_char(k, n)
}

// ── Building strings ─────────────────────────────────────────

/// The characters that `String::from_utf8_lossy` makes of `bytes`: invalid
/// sequences become U+FFFD.
pub uninterp spec fn lossy_utf8(bytes: Seq<u8>) -> Seq<char>;

/// `String::from_utf8_lossy(bytes).into_owned()`: the result is a function of
/// the bytes alone, and for valid UTF-8 it is exactly the decoded text, as
/// std's documentation states (the borrowed case). What it makes of invalid
/// sequences is left unsaid beyond its name.
#[verifier::external_body]
pub(crate) fn string_from_bytes(bytes: &[u8]) -> (s: String)
    ensures
        s@ == lossy_utf8(bytes@),
        valid_utf8(bytes@) ==> s@ == decode_utf8(bytes@),
{
    String::from_utf8_lossy(bytes).into_owned()
}


/// The characters of an ASCII byte sequence.
pub open spec fn ascii_chars(b: Seq<u8>) -> Seq<char> {
    b.map_values(|x: u8| x as char)
}

pub open spec fn all_ascii(b: Seq<u8>) -> bool {
    forall|i: int| 0 <= i < b.len() ==> #[trigger] b[i] < 128
}

/// ASCII bytes are valid UTF-8 and decode to the same characters.
pub proof fn lemma_ascii_utf8(b: Seq<u8>)
    requires
        all_ascii(b),
    ensures
        valid_utf8(b),
        decode_utf8(b) == ascii_chars(b),
{
    let chars = ascii_chars(b);
    assert forall|i: int| 0 <= i < chars.len() implies '\0' <= #[trigger] chars[i] <= '\u{7f}' by {
        assert(b[i] < 128);
        assert(chars[i] == b[i] as char);
    }
    assert(is_ascii_chars(chars));
    is_ascii_chars_encode_utf8(chars);
    assert forall|i: int| 0 <= i < b.len() implies #[trigger] encode_utf8(chars)[i] == b[i] by {
        assert(chars[i] as u8 == encode_utf8(chars)[i]);
        assert(b[i] < 128);
        assert((b[i] as char) as u8 == b[i]);
    }
    assert(encode_utf8(chars) =~= b);
    encode_utf8_valid_utf8(chars);
    encode_utf8_decode_utf8(chars);
}

/// The `String` holding the ASCII bytes `bytes`.
pub fn ascii_string(bytes: &[u8]) -> (s: String)
    requires
        all_ascii(bytes@),
    ensures
        s@ == ascii_chars(bytes@),
{
    proof {
        lemma_ascii_utf8(bytes@);
    }
    string_from_bytes(bytes)
}

/// The decimal digits of `n`, most significant first, as ASCII bytes.
pub open spec fn decimal_digits(n: nat) -> Seq<u8>
    decreases n,
{
    if n < 10 {
        seq![(48 + n) as u8]
    } else {
        decimal_digits(n / 10).push((48 + n % 10) as u8)
    }
}

/// The decimal representation of `n`.
pub open spec fn decimal_chars(n: nat) -> Seq<char> {
    ascii_chars(decimal_digits(n))
}

pub proof fn lemma_decimal_digits_ascii(n: nat)
    ensures
        all_ascii(decimal_digits(n)),
        decimal_digits(n).len() >= 1,
    decreases n,
{
    if n >= 10 {
        lemma_decimal_digits_ascii(n / 10);
        let d = decimal_digits(n);
        assert forall|i: int| 0 <= i < d.len() implies #[trigger] d[i] < 128 by {
            if i < d.len() - 1 {
                assert(d[i] == decimal_digits(n / 10)[i]);
            }
        }
    }
}

/// The decimal digits of `n` as ASCII bytes.
pub fn decimal_bytes(n: usize) -> (v: Vec<u8>)
    ensures
        v@ == decimal_digits(n as nat),
    decreases n,
{
    if n < 10 {
        let mut v = Vec::new();
        v.push(48 + n as u8);
        proof {
            assert(v@ =~= decimal_digits(n as nat));
        }
        v
    } else {
        let mut v = decimal_bytes(n / 10);
        v.push(48 + (n % 10) as u8);
        v
    }
}

/// `n` written in decimal.
pub fn decimal_string(n: usize) -> (s: String)
    ensures
        s@ == decimal_chars(n as nat),
{
    let v = decimal_bytes(n);
    proof {
        lemma_decimal_digits_ascii(n as nat);
    }
    ascii_string(v.as_slice())
}


/// `std::str::from_utf8(bytes)`, owned: `Some` exactly when the bytes are
/// valid UTF-8, holding the text they encode.
#[verifier::external_body]
pub(crate) fn utf8_to_string(bytes: &[u8]) -> (r: Option<String>)
    ensures
        r is Some <==> valid_utf8(bytes@),
        r matches Some(s) ==> s@ == decode_utf8(bytes@),
{
    match std::str::from_utf8(bytes) {
        Ok(s) => Some(s.to_string()),
        Err(_) => None,
    }
}

/// Whether two strings hold the same characters.
pub fn str_eq(a: &str, b: &str) -> (r: bool)
    ensures
        r == (a@ == b@),
{
    let n = a.unicode_len();
    let m = b.unicode_len();
    if n != m {
        return false;
    }
    let mut i: usize = 0;
    while i < n
        invariant
            i <= n,
            n == a@.len(),
            m == b@.len(),
            n == m,
            forall|j: int| 0 <= j < i ==> a@[j] == b@[j],
        decreases n - i,
    {
        if a.get_char(i) != b.get_char(i) {
            return false;
        }
        i += 1;
    }
    proof {
        assert(a@ =~= b@);
    }
    true
}

// ── Lines ────────────────────────────────────────────────────

/// The index of the first `\n` in `s`, or `s.len()` when there is none.
pub open spec fn newline_index(s: Seq<char>) -> nat
    decreases s.len(),
{
    if s.len() == 0 || s[0] == '\n' {
        0
    } else {
        1 + newline_index(s.drop_first())
    }
}

pub proof fn lemma_newline_index(s: Seq<char>)
    ensures
        newline_index(s) <= s.len(),
        newline_index(s) < s.len() ==> s[newline_index(s) as int] == '\n',
    decreases s.len(),
{
    if s.len() > 0 && s[0] != '\n' {
        lemma_newline_index(s.drop_first());
        if newline_index(s) < s.len() {
            assert(s[newline_index(s) as int] == s.drop_first()[newline_index(s.drop_first()) as int]);
        }
    }
}

/// A line without the `\r` of a `\r\n` ending.
pub open spec fn strip_cr(l: Seq<char>) -> Seq<char> {
    if l.len() > 0 && l.last() == '\r' {
        l.drop_last()
    } else {
        l
    }
}

/// The lines of `s` as `str::lines` gives them: split at `\n` or `\r\n`, the
/// final line ending optional, and a `\r` that ends the text without a `\n`
/// kept.
pub open spec fn lines_spec(s: Seq<char>) -> Seq<Seq<char>>
    decreases s.len(),
{
    if s.len() == 0 {
        Seq::empty()
    } else {
        let i = newline_index(s) as int;
        if i < s.len() {
            proof {
                lemma_newline_index(s);
            }
            seq![strip_cr(s.take(i))] + lines_spec(s.skip(i + 1))
        } else {
            seq![s]
        }
    }
}

/// A text has no more lines than characters.
pub proof fn lemma_lines_count(s: Seq<char>)
    ensures
        lines_spec(s).len() <= s.len(),
    decreases s.len(),
{
    if s.len() > 0 {
        lemma_newline_index(s);
        let i = newline_index(s) as int;
        if i < s.len() {
            lemma_lines_count(s.skip(i + 1));
        }
    }
}

/// The lines of `s`, as `str::lines` splits them, each as an owned string.
#[verifier::external_body]
pub(crate) fn split_lines(s: &str) -> (v: Vec<String>)
    ensures
        v@.map_values(|l: String| l@) == lines_spec(s@),
{
    s.lines().map(|l| l.to_string()).collect()
}

} // verus!
