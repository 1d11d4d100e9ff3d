//! ed-style address parsing and resolution.
//!
//! The front of a command string is parsed into a `Spec` (addresses not yet
//! checked against a buffer), and a `Spec` is resolved against a `Buffer`
//! into a concrete `Range` of 1-indexed line numbers.
//!
//! Address forms: `5` (absolute line), `.` (current), `$` (last), `+3` and
//! `-1` (relative to the current line, a bare sign meaning 1), `,` (`1,$`),
//! `;` (`.,$`), and `a,b` ranges; `a,` with no second address ends at `$`.

use vstd::prelude::*;
use vstd::string::StrSliceExecFns;
use crate::buffer::{Buffer, BufferView};
use crate::text::{
    decimal_value, digit_run, is_ascii_digit, lemma_digit_run, parse_decimal, take_digits,
    trim_start, trim_start_spec,
};

verus! {

#[derive(PartialEq, Eq, Structural)]
pub enum Address {
    Number(usize),
    Current,
    Last,
    Offset(isize),
}

pub struct Spec {
    pub start: Option<Address>,
    pub end: Option<Address>,
}

pub struct Range {
    pub start: usize,  // 1-indexed, inclusive
    pub end: usize,  // 1-indexed, inclusive
}

/// The message of every address error.
pub open spec fn invalid_address_msg() -> Seq<char> {
    "invalid address"@
}

pub fn invalid_address() -> (s: String)
    ensures
        s@ == invalid_address_msg(),
{
    "invalid address".to_owned()
}

// ── Parsing ──────────────────────────────────────────────────

/// One address atom at the front of `s`: the address (if any) and the rest,
/// or `None` when a number does not fit its type.
pub open spec fn parse_one_spec(s: Seq<char>) -> Option<(Option<Address>, Seq<char>)> {
    if s.len() == 0 {
        Some((None, s))
    } else if s[0] == '.' {
        Some((Some(Address::Current), s.drop_first()))
    } else if s[0] == '$' {
        Some((Some(Address::Last), s.drop_first()))
    } else if s[0] == '+' || s[0] == '-' {
        let tail = s.drop_first();
        let d = digit_run(tail) as int;
        let n = if d == 0 {
            1
        } else {
            decimal_value(tail.take(d))
        };
        if n > isize::MAX {
            None
        } else {
            let off = if s[0] == '+' {
                n as int
            } else {
                -n
            };
            Some((Some(Address::Offset(off as isize)), tail.skip(d)))
        }
    } else if is_ascii_digit(s[0]) {
        let d = digit_run(s) as int;
        let n = decimal_value(s.take(d));
        if n > usize::MAX {
            None
        } else {
            Some((Some(Address::Number(n as usize)), s.skip(d)))
        }
    } else {
        Some((None, s))
    }
}

/// The address spec at the front of `s` and the rest, or `None` on an error.
pub open spec fn parse_spec(s: Seq<char>) -> Option<(Option<Address>, Option<Address>, Seq<char>)> {
    if s.len() > 0 && s[0] == ',' {
        Some((Some(Address::Number(1)), Some(Address::Last), s.drop_first()))
    } else if s.len() > 0 && s[0] == ';' {
        Some((Some(Address::Current), Some(Address::Last), s.drop_first()))
    } else {
        match parse_one_spec(s) {
            None => None,
            Some((start, rest)) => if rest.len() > 0 && rest[0] == ',' {
                match parse_one_spec(rest.drop_first()) {
                    None => None,
                    Some((end, rest2)) => Some(
                        (start, if end is None {
                            Some(Address::Last)
                        } else {
                            end
                        }, rest2),
                    ),
                }
            } else {
                Some((start, None, rest))
            },
        }
    }
}

/// Parse a single address atom. `Ok((None, rest))` means there is no address
/// here and `rest` is the whole input.
fn parse_one(input: &str) -> (r: Result<(Option<Address>, &str), String>)
    ensures
        match parse_one_spec(input@) {
            Some((a, rest)) => r matches Ok((a2, rest2)) && a2 == a && rest2@ == rest,
            None => r matches Err(e) && e@ == invalid_address_msg(),
        },
{
    let n = input.unicode_len();
    if n == 0 {
        return Ok((None, input));
    }
    let first = input.get_char(0);
    if first == '.' {
        Ok((Some(Address::Current), input.substring_char(1, n)))
    } else if first == '$' {
        Ok((Some(Address::Last), input.substring_char(1, n)))
    } else if first == '+' || first == '-' {
        let tail = input.substring_char(1, n);
        let (digits, rest) = take_digits(tail);
        proof {
            lemma_digit_run(tail@);
            assert(tail@ =~= input@.drop_first());
        }
        let value: usize = if digits.unicode_len() == 0 {
            1
        } else {
            match parse_decimal(digits) {
                Some(v) => v,
                None => {
                    return Err(invalid_address());
                },
            }
        };
        if value > isize::MAX as usize {
            return Err(invalid_address());
        }
        let v = value as isize;
        let off = if first == '+' {
            v
        } else {
            -v
        };
        Ok((Some(Address::Offset(off)), rest))
    } else if '0' <= first && first <= '9' {
        let (digits, rest) = take_digits(input);
        proof {
            lemma_digit_run(input@);
        }
        match parse_decimal(digits) {
            Some(v) => Ok((Some(Address::Number(v)), rest)),
            None => Err(invalid_address()),
        }
    } else {
        Ok((None, input))
    }
}

impl Spec {
    /// Whether a second address comes only with a first one, as the parser
    /// always produces.
    pub open spec fn wf(&self) -> bool {
        !(self.start is None && self.end is Some)
    }

    /// Parse an address spec from the front of `input`: the spec and the rest
    /// of the command. Addresses are not checked against any buffer here.
    pub fn parse(input: &str) -> (r: Result<(Spec, &str), String>)
        ensures
            match parse_spec(input@) {
                Some((start, end, rest)) => r matches Ok((sp, rest2)) && sp.start == start
                    && sp.end == end && rest2@ == rest && sp.wf(),
                None => r matches Err(e) && e@ == invalid_address_msg(),
            },
    {
        let n = input.unicode_len();
        if n > 0 {
            let first = input.get_char(0);
            if first == ',' {
                return Ok(
                    (
                        Spec { start: Some(Address::Number(1)), end: Some(Address::Last) },
                        input.substring_char(1, n),
                    ),
                );
            }
            if first == ';' {
                return Ok(
                    (
                        Spec { start: Some(Address::Current), end: Some(Address::Last) },
                        input.substring_char(1, n),
                    ),
                );
            }
        }
        let (start, rest) = match parse_one(input) {
            Ok(p) => p,
            Err(e) => {
                return Err(e);
            },
        };
        let m = rest.unicode_len();
        if m > 0 && rest.get_char(0) == ',' {
            let after = rest.substring_char(1, m);
            let (end, rest2) = match parse_one(after) {
                Ok(p) => p,
                Err(e) => {
                    return Err(e);
                },
            };
            let end = match end {
                Some(a) => Some(a),
                None => Some(Address::Last),
            };
            proof {
                assert(start is None ==> end is Some);
            }
            return Ok((Spec { start, end }, rest2));
        }
        Ok((Spec { start, end: None }, rest))
    }

    /// True if no address was given at all.
    pub fn is_empty(&self) -> (b: bool)
        ensures
            b == (self.start is None && self.end is None),
    {
        self.start.is_none() && self.end.is_none()
    }
}


// ── Resolution ───────────────────────────────────────────────

/// The line number an address names in buffer `b`: offsets count from the
/// current line and must land on a line number from 1 up (and one that fits
/// a `usize`).
pub open spec fn resolve_one_spec(a: Address, b: BufferView) -> Option<nat> {
    match a {
        Address::Number(n) => Some(n as nat),
        Address::Current => Some(b.current),
        Address::Last => Some(b.lines.len()),
        Address::Offset(n) => {
            let r = b.current + n;
            if r < 1 || r > usize::MAX {
                None
            } else {
                Some(r as nat)
            }
        },
    }
}

/// The range that the addresses `start`, `end` name in `b`, with `default`
/// standing in for an omitted spec; `None` for an empty buffer or a range
/// that is not `1 <= start <= end <= len`.
pub open spec fn resolve_spec(
    start: Option<Address>,
    end: Option<Address>,
    b: BufferView,
    default: (Address, Address),
) -> Option<(nat, nat)> {
    if b.lines.len() == 0 {
        None
    } else {
        let (sa, ea) = match (start, end) {
            (Some(s), Some(e)) => (s, e),
            (Some(s), None) => (s, s),
            _ => default,
        };
        match (resolve_one_spec(sa, b), resolve_one_spec(ea, b)) {
            (Some(s), Some(e)) => if s == 0 || e == 0 || s > b.lines.len() || e > b.lines.len() || s
                > e {
                None
            } else {
                Some((s, e))
            },
            _ => None,
        }
    }
}

fn resolve_one(addr: &Address, buf: &Buffer) -> (r: Result<usize, String>)
    ensures
        match resolve_one_spec(*addr, buf@) {
            Some(n) => r matches Ok(v) && v == n,
            None => r matches Err(e) && e@ == invalid_address_msg(),
        },
{
    match addr {
        Address::Number(n) => Ok(*n),
        Address::Current => Ok(buf.current()),
        Address::Last => Ok(buf.len()),
        Address::Offset(n) => {
            let n = *n;
            let base = buf.current();
            if n >= 0 {
                match base.checked_add(n as usize) {
                    Some(r) => {
                        if r < 1 {
                            Err(invalid_address())
                        } else {
                            Ok(r)
                        }
                    },
                    None => Err(invalid_address()),
                }
            } else {
                let m = ((-(n + 1)) as usize) + 1;
                if m >= base {
                    Err(invalid_address())
                } else {
                    Ok(base - m)
                }
            }
        },
    }
}

fn clone_addr(a: &Address) -> (r: Address)
    ensures
        r == *a,
{
    match a {
        Address::Number(n) => Address::Number(*n),
        Address::Current => Address::Current,
        Address::Last => Address::Last,
        Address::Offset(n) => Address::Offset(*n),
    }
}

impl Spec {
    /// Resolve with the current line as the default for an omitted spec.
    pub fn resolve(&self, buf: &Buffer) -> (r: Result<Range, String>)
        requires
            self.wf(),
        ensures
            match resolve_spec(self.start, self.end, buf@, (Address::Current, Address::Current)) {
                Some((s, e)) => r matches Ok(rg) && rg.start == s && rg.end == e,
                None => r matches Err(msg) && msg@ == invalid_address_msg(),
            },
    {
        self.resolve_with(buf, (Address::Current, Address::Current))
    }

    /// Resolve with the whole buffer (`1,$`) as the default for an omitted
    /// spec.
    pub fn resolve_or_whole(&self, buf: &Buffer) -> (r: Result<Range, String>)
        requires
            self.wf(),
        ensures
            match resolve_spec(self.start, self.end, buf@, (Address::Number(1), Address::Last)) {
                Some((s, e)) => r matches Ok(rg) && rg.start == s && rg.end == e,
                None => r matches Err(msg) && msg@ == invalid_address_msg(),
            },
    {
        self.resolve_with(buf, (Address::Number(1), Address::Last))
    }

    /// Resolve with `.,.+1` (the current line and the next) as the default
    /// for an omitted spec, as `j` does.
    pub fn resolve_or_pair_with_next(&self, buf: &Buffer) -> (r: Result<Range, String>)
        requires
            self.wf(),
        ensures
            match resolve_spec(self.start, self.end, buf@, (Address::Current, Address::Offset(1))) {
                Some((s, e)) => r matches Ok(rg) && rg.start == s && rg.end == e,
                None => r matches Err(msg) && msg@ == invalid_address_msg(),
            },
    {
        self.resolve_with(buf, (Address::Current, Address::Offset(1)))
    }

    fn resolve_with(&self, buf: &Buffer, default: (Address, Address)) -> (r: Result<Range, String>)
        requires
            self.wf(),
        ensures
            match resolve_spec(self.start, self.end, buf@, default) {
                Some((s, e)) => r matches Ok(rg) && rg.start == s && rg.end == e,
                None => r matches Err(msg) && msg@ == invalid_address_msg(),
            },
    {
        if buf.is_empty() {
            return Err(invalid_address());
        }
        let (start_addr, end_addr) = match (&self.start, &self.end) {
            (Some(s), Some(e)) => (clone_addr(s), clone_addr(e)),
            (Some(s), None) => (clone_addr(s), clone_addr(s)),
            _ => default,
        };
        let start = match resolve_one(&start_addr, buf) {
            Ok(n) => n,
            Err(e) => {
                return Err(e);
            },
        };
        let end = match resolve_one(&end_addr, buf) {
            Ok(n) => n,
            Err(e) => {
                return Err(e);
            },
        };
        if start == 0 || end == 0 || start > buf.len() || end > buf.len() {
            return Err(invalid_address());
        }
        if start > end {
            return Err(invalid_address());
        }
        Ok(Range { start, end })
    }
}

/// The destination of `m` and `t` in `arg`: an address after optional
/// whitespace (the current line when there is none), which may be 0 ("before
/// line 1") but not past the last line. Returns it with the rest of `arg`.
pub open spec fn dest_spec(arg: Seq<char>, b: BufferView) -> Option<(nat, Seq<char>)> {
    match parse_one_spec(trim_start_spec(arg)) {
        None => None,
        Some((a, rest)) => {
            let v = match a {
                None => Some(b.current),
                Some(x) => resolve_one_spec(x, b),
            };
            match v {
                Some(d) => if d <= b.lines.len() {
                    Some((d, rest))
                } else {
                    None
                },
                None => None,
            }
        },
    }
}

/// Parse the destination address of `m` or `t`.
pub fn parse_dest<'a>(arg: &'a str, buf: &Buffer) -> (r: Result<(usize, &'a str), String>)
    ensures
        match dest_spec(arg@, buf@) {
            Some((d, rest)) => r matches Ok((d2, rest2)) && d2 == d && rest2@ == rest,
            None => r matches Err(e) && e@ == invalid_address_msg(),
        },
{
    let t = trim_start(arg);
    let (a, rest) = match parse_one(t) {
        Ok(p) => p,
        Err(e) => {
            return Err(e);
        },
    };
    let d = match a {
        None => buf.current(),
        Some(x) => match resolve_one(&x, buf) {
            Ok(n) => n,
            Err(e) => {
                return Err(e);
            },
        },
    };
    if d > buf.len() {
        return Err(invalid_address());
    }
    Ok((d, rest))
}

} // verus!
