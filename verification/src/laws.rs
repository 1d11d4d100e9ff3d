//! Properties of the editor that span its functions, proved over the models
//! that their contracts use.

use vstd::prelude::*;
use vstd::seq_lib::lemma_multiset_commutative;
use crate::action::ActionModel;
use crate::ascii::{CARET, DASH, LBRACKET, RBRACKET};
use crate::address::{
    parse_one_spec, parse_spec, resolve_spec, Address,
};
use crate::bre::{
    bracket_members, bracket_spec, byte_range, compile_from,
    anchored, compile_spec, first_elem, here, initial_caps, lemma_search_bounds, search,
    search_at, search_from, expand_spec, group_starts, lemma_compile_groups_in_range,
    lemma_search_from_supported, lemma_compile_groups_ordered, lemma_here_caps, caps_ok, star, atom_accepts, AtomModel, CapsModel, ElemModel, MatchModel, Outcome, SearchModel,
};
use crate::buffer::{appended, deleted, lines_without, BufferView, MAX_LINES};
use crate::edit::{delete_spec, transfer_spec, join_spec, list_byte, list_bytes, list_line_spec, move_spec, concat_lines};
use crate::address::Spec;
use crate::files::{loaded_spec, read_spec};
use crate::files::{
    edit_spec, empty_view, filename_spec, unsaved_msg, protected_msg, protecting, write_spec, write_text,
};
use crate::subst::{line_subst, SubstModel, subst_all_from, subst_all_spec, subst_apply, subst_first_spec, subst_lines, subst_spec};
use crate::command::{dispatch_spec, is_suffix, lemma_parse_suffix, mark_spec};
use crate::repl::{modified_warning, step_spec, trailing, trim_line_spec, StepModel};
use crate::text::{
    lossy_utf8,
    decimal_value, digit_of, digit_run, is_ascii_digit, lines_spec, newline_index,
    strip_cr, trim_start_spec, white_run,
};

verus! {

// ── Buffer ───────────────────────────────────────────────────

/// Reading a line back after inserting it gives what was inserted; the
/// lines before it are unchanged and those after it move down by one.
pub proof fn law_append_then_read(b: BufferView, after: int, line: Seq<char>)
    requires
        0 <= after <= b.lines.len(),
    ensures
        appended(b, after, line).lines.len() == b.lines.len() + 1,
        appended(b, after, line).lines[after] == line,
        forall|i: int| 0 <= i < after ==> #[trigger] appended(b, after, line).lines[i] == b.lines[i],
        forall|i: int|
            after < i <= b.lines.len() ==> #[trigger] appended(b, after, line).lines[i] == b.lines[i
                - 1],
        appended(b, after, line).current == after + 1,
        appended(b, after, line).modified,
{
}

/// Deleting lines `start..=end` removes exactly those lines: the count drops
/// by `end - start + 1`, the lines before stay, the lines after move up.
pub proof fn law_delete_removes_range(b: BufferView, start: int, end: int)
    requires
        1 <= start,
        start - 1 <= end <= b.lines.len(),
    ensures
        deleted(b, start, end).lines.len() == b.lines.len() - (end - start + 1),
        forall|i: int| 0 <= i < start - 1 ==> #[trigger] deleted(b, start, end).lines[i] == b.lines[i],
        forall|i: int|
            start - 1 <= i < b.lines.len() - (end - start + 1) ==> #[trigger] deleted(
                b,
                start,
                end,
            ).lines[i] == b.lines[i + (end - start + 1)],
        deleted(b, start, end).modified,
        deleted(b, start, end).current <= deleted(b, start, end).lines.len(),
{
}

// ── Addresses ────────────────────────────────────────────────

/// `,` is shorthand for `1,$`.
pub proof fn law_comma_is_whole_buffer(rest: Seq<char>)
    ensures
        parse_spec(seq![','] + rest) == parse_spec(seq!['1', ',', '$'] + rest),
        parse_spec(seq![','] + rest) == Some(
            (Some(Address::Number(1)), Some(Address::Last), rest),
        ),
{
    let s = seq!['1', ',', '$'] + rest;
    assert((seq![','] + rest).drop_first() =~= rest);
    assert(s[0] == '1');
    assert(digit_run(s.drop_first()) == 0);
    assert(digit_run(s) == 1);
    assert(s.take(1) =~= seq!['1']);
    assert(seq!['1'].drop_last() =~= Seq::<char>::empty());
    assert(seq!['1'].last() == '1');
    assert(digit_of('1') == 1);
    assert(decimal_value(Seq::<char>::empty()) == 0);
    assert(decimal_value(seq!['1']) == 1);
    assert(s.skip(1) =~= seq![',', '$'] + rest);
    assert((seq![',', '$'] + rest).drop_first() =~= seq!['$'] + rest);
    assert((seq!['$'] + rest).drop_first() =~= rest);
}

/// `;` is shorthand for `.,$`.
pub proof fn law_semicolon_is_current_to_end(rest: Seq<char>)
    ensures
        parse_spec(seq![';'] + rest) == parse_spec(seq!['.', ',', '$'] + rest),
        parse_spec(seq![';'] + rest) == Some((Some(Address::Current), Some(Address::Last), rest)),
{
    let s = seq!['.', ',', '$'] + rest;
    assert((seq![';'] + rest).drop_first() =~= rest);
    assert(s.drop_first() =~= seq![',', '$'] + rest);
    assert((seq![',', '$'] + rest).drop_first() =~= seq!['$'] + rest);
    assert((seq!['$'] + rest).drop_first() =~= rest);
}

/// A bare `+` or `-` means `+1` or `-1`.
pub proof fn law_bare_sign_is_one(sign: char, rest: Seq<char>)
    requires
        sign == '+' || sign == '-',
        rest.len() == 0 || !is_ascii_digit(rest[0]),
    ensures
        parse_one_spec(seq![sign] + rest) == parse_one_spec(seq![sign, '1'] + rest),
        parse_one_spec(seq![sign] + rest) == Some(
            (Some(Address::Offset(if sign == '+' { 1isize } else { -1isize })), rest),
        ),
{
    let a = seq![sign] + rest;
    let b = seq![sign, '1'] + rest;
    assert(a.drop_first() =~= rest);
    assert(digit_run(rest) == 0);
    assert(rest.skip(0) =~= rest);
    let bt = b.drop_first();
    assert(bt =~= seq!['1'] + rest);
    assert(bt.drop_first() =~= rest);
    assert(digit_run(bt) == 1);
    assert(bt.take(1) =~= seq!['1']);
    assert(seq!['1'].drop_last() =~= Seq::<char>::empty());
    assert(seq!['1'].last() == '1');
    assert(digit_of('1') == 1);
    assert(decimal_value(Seq::<char>::empty()) == 0);
    assert(decimal_value(seq!['1']) == 1);
    assert(bt.skip(1) =~= rest);
}

/// The line an address names, as a plain number (an offset counts from the
/// current line and may fall outside the buffer).
pub open spec fn address_value(a: Address, b: BufferView) -> int {
    match a {
        Address::Number(n) => n as int,
        Address::Current => b.current as int,
        Address::Last => b.lines.len() as int,
        Address::Offset(k) => b.current + k,
    }
}

/// Resolving names lines `s..=e` exactly when the buffer is not empty and
/// `1 <= s <= e <= $`, where a lone address stands for both ends and no
/// address at all for the command's default.
pub proof fn law_resolve_names_existing_lines(
    start: Option<Address>,
    end: Option<Address>,
    b: BufferView,
    default: (Address, Address),
)
    requires
        b.lines.len() <= usize::MAX,
    ensures
        ({
            let (sa, ea) = match (start, end) {
                (Some(s), Some(e)) => (s, e),
                (Some(s), None) => (s, s),
                _ => default,
            };
            let s = address_value(sa, b);
            let e = address_value(ea, b);
            resolve_spec(start, end, b, default) == if b.lines.len() > 0 && 1 <= s <= e
                <= b.lines.len() {
                Some((s as nat, e as nat))
            } else {
                None
            }
        }),
{
}

/// Parsing an address spec leaves a suffix of the input, never gives an end
/// without a start, and consumes nothing when it finds no start address.
pub proof fn law_parse_leaves_a_suffix(input: Seq<char>)
    ensures
        parse_spec(input) matches Some((st, en, rest)) ==> {
            &&& is_suffix(rest, input)
            &&& !(st is None && en is Some)
            &&& st is None ==> rest == input
        },
{
    lemma_parse_suffix(input);
}

/// A resolved range always names existing lines: `1 <= start <= end <= $`.
pub proof fn law_resolved_range_in_buffer(
    start: Option<Address>,
    end: Option<Address>,
    b: BufferView,
    default: (Address, Address),
)
    ensures
        resolve_spec(start, end, b, default) matches Some((s, e)) ==> 1 <= s <= e <= b.lines.len(),
{
}

// ── Regex ────────────────────────────────────────────────────

/// A search finds the leftmost match: the match lies within the text, the
/// pattern matches exactly there, no earlier offset matches, and an anchored
/// pattern only matches at offset 0. When the search finds nothing, no
/// offset where the pattern may start (only 0 for an anchored one) matches.
pub proof fn law_search_leftmost(e: Seq<ElemModel>, t: Seq<u8>)
    ensures
        search(e, t) matches SearchModel::Found(s, en, c) ==> {
            &&& 0 <= s <= en <= t.len()
            &&& here(e, first_elem(e), t, s, initial_caps()) == Outcome::Hit(en - s, c)
            &&& forall|o: int|
                0 <= o < s ==> (#[trigger] here(e, first_elem(e), t, o, initial_caps())) is Miss
            &&& anchored(e) ==> s == 0
        },
        search(e, t) is NotFound ==> forall|o: int|
            0 <= o <= t.len() && (anchored(e) ==> o == 0) ==> (#[trigger] here(
                e,
                first_elem(e),
                t,
                o,
                initial_caps(),
            )) is Miss,
{
    lemma_search_bounds(e, t);
    lemma_search_from_leftmost(e, t, 0);
}

proof fn lemma_search_from_leftmost(e: Seq<ElemModel>, t: Seq<u8>, offset: int)
    requires
        0 <= offset <= t.len(),
    ensures
        search_from(e, t, offset) matches SearchModel::Found(s, en, c) ==> {
            &&& here(e, first_elem(e), t, s, initial_caps()) == Outcome::Hit(en - s, c)
            &&& forall|o: int|
                offset <= o < s ==> (#[trigger] here(e, first_elem(e), t, o, initial_caps())) is Miss
            &&& anchored(e) ==> s == offset
        },
        search_from(e, t, offset) is NotFound ==> forall|o: int|
            offset <= o <= t.len() && (anchored(e) ==> o == offset) ==> (#[trigger] here(
                e,
                first_elem(e),
                t,
                o,
                initial_caps(),
            )) is Miss,
    decreases t.len() - offset,
{
    match here(e, first_elem(e), t, offset, initial_caps()) {
        Outcome::Miss => {
            if !(anchored(e) || offset >= t.len()) {
                lemma_search_from_leftmost(e, t, offset + 1);
            }
        },
        _ => {},
    }
}

/// Matching consumes bytes within the text and leaves every group that took
/// part inside the match: for the captures of a match found in the text,
/// `0 <= start <= end <=` the match's end. Past the last element, matching
/// succeeds at once, consuming nothing and keeping the captures.
pub proof fn law_match_keeps_captures_inside(p: Seq<u8>, t: Seq<u8>)
    ensures
        search(compile_spec(p), t) matches SearchModel::Found(s, en, c) ==> forall|i: int|
            0 <= i < 9 && #[trigger] c.valid[i] ==> 0 <= c.start[i] <= c.end[i] <= en,
        forall|pos: int, caps: CapsModel|
            #![trigger here(compile_spec(p), compile_spec(p).len() as int, t, pos, caps)]
            here(compile_spec(p), compile_spec(p).len() as int, t, pos, caps) == Outcome::Hit(0, caps),
{
    let e = compile_spec(p);
    lemma_compile_groups_ordered(p);
    law_search_leftmost(e, t);
    match search(e, t) {
        SearchModel::Found(s, en, c) => {
            assert(caps_ok(e, first_elem(e), initial_caps(), s));
            lemma_here_caps(e, first_elem(e), t, s, initial_caps());
        },
        _ => {},
    }
}

/// A bracket range `[lo-hi]` accepts exactly the bytes from `lo` to `hi`,
/// both ends included, and a one-byte text matches it exactly when its byte
/// lies in the range.
pub proof fn law_bracket_range_is_inclusive(lo: u8, hi: u8, b: u8)
    requires
        lo != CARET,
        lo != RBRACKET,
        hi != RBRACKET,
    ensures
        ({
            let e = compile_spec(seq![LBRACKET, lo, DASH, hi, RBRACKET]);
            &&& e.len() == 1
            &&& e[0] matches ElemModel::One(a) && (atom_accepts(a, b) <==> lo <= b <= hi)
            &&& (lo <= b <= hi) <==> (search(e, seq![b]) matches SearchModel::Found(s0, e0, _) && s0 == 0
                && e0 == 1)
        }),
{
    let p = seq![LBRACKET, lo, DASH, hi, RBRACKET];
    assert(bracket_members(p, 4) == (Seq::<u8>::empty(), 4int));
    assert(bracket_members(p, 1).0 =~= byte_range(lo, hi));
    let (a, j) = bracket_spec(p, 0);
    assert(j == 5);
    assert(a == AtomModel::Class(false, byte_range(lo, hi)));
    assert(compile_from(p, 5, 0, Seq::empty()) == Seq::<ElemModel>::empty());
    let e = compile_spec(p);
    assert(e =~= seq![ElemModel::One(a)]);
    let r = byte_range(lo, hi);
    if lo <= b <= hi {
        assert(r[b - lo] == b);
    }
    if r.contains(b) {
        let i = choose|i: int| 0 <= i < r.len() && r[i] == b;
        assert(lo <= b <= hi);
    }
    let t = seq![b];
    assert(here(e, 1, t, 1, initial_caps()) == Outcome::Hit(0, initial_caps()));
    assert(here(e, 1, t, 0, initial_caps()) == Outcome::Hit(0, initial_caps()));
    if !atom_accepts(a, b) {
        assert(here(e, 0, t, 0, initial_caps()) is Miss);
        assert(here(e, 0, t, 1, initial_caps()) is Miss);
        assert(search_from(e, t, 1) is NotFound);
    }
}

/// A pattern that opens at most nine groups never reaches the group limit:
/// searching it, from any offset, finds a match or finds none.
pub proof fn law_nine_groups_never_reach_the_limit(p: Seq<u8>, t: Seq<u8>, from: int)
    requires
        group_starts(compile_spec(p)) <= 9,
    ensures
        !(search(compile_spec(p), t) is Unsupported),
        !(search_at(compile_spec(p), t, from) is Unsupported),
{
    lemma_compile_groups_in_range(p);
    lemma_search_from_supported(compile_spec(p), t, 0);
    lemma_search_from_supported(compile_spec(p), t, from);
}

/// The text has a byte at `x` and the atom accepts it.
pub open spec fn accepts_at(a: AtomModel, t: Seq<u8>, x: int) -> bool {
    0 <= x < t.len() && atom_accepts(a, t[x])
}

/// The atom accepts each of the bytes `pos + n .. pos + j` of `t`.
pub open spec fn accepts_run(a: AtomModel, t: Seq<u8>, pos: int, n: int, j: int) -> bool {
    forall|x: int| pos + n <= x < pos + j ==> #[trigger] accepts_at(a, t, x)
}

/// A starred atom takes the fewest repetitions that let the rest of the
/// pattern match: when it matches, it repeats `j` times for the least `j`
/// after which the rest matches; when it does not, no number of repetitions
/// lets the rest match.
pub proof fn law_star_takes_fewest_repetitions(
    e: Seq<ElemModel>,
    k: int,
    a: AtomModel,
    t: Seq<u8>,
    pos: int,
    caps: CapsModel,
    n: int,
)
    requires
        0 <= k < e.len(),
        0 <= pos,
        0 <= n,
    ensures
        star(e, k, a, t, pos, caps, n) matches Outcome::Hit(m, c) ==> exists|j: int|
            n <= j && accepts_run(a, t, pos, n, j) && #[trigger] here(e, k + 1, t, pos + j, caps)
                == Outcome::Hit(m - j, c) && forall|i: int|
                n <= i < j ==> (#[trigger] here(e, k + 1, t, pos + i, caps)) is Miss,
        star(e, k, a, t, pos, caps, n) is Miss ==> forall|j: int|
            n <= j && accepts_run(a, t, pos, n, j) ==> (#[trigger] here(e, k + 1, t, pos + j, caps)) is Miss,
    decreases t.len() - (pos + n),
{
    match here(e, k + 1, t, pos + n, caps) {
        Outcome::Hit(len, c) => {
            assert(here(e, k + 1, t, pos + n, caps) == Outcome::Hit((n + len) - n, c));
        },
        Outcome::Unsupported => {},
        Outcome::Miss => {
            if pos + n >= t.len() || !atom_accepts(a, t[pos + n]) {
                assert forall|j: int| n <= j && accepts_run(a, t, pos, n, j) implies (#[trigger] here(
                    e,
                    k + 1,
                    t,
                    pos + j,
                    caps,
                )) is Miss by {
                    if j > n {
                        assert(accepts_at(a, t, pos + n));
                    }
                }
            } else {
                law_star_takes_fewest_repetitions(e, k, a, t, pos, caps, n + 1);
                match star(e, k, a, t, pos, caps, n + 1) {
                    Outcome::Hit(m, c) => {
                        let j = choose|j: int|
                            n + 1 <= j && accepts_run(a, t, pos, n + 1, j) && #[trigger] here(
                                e,
                                k + 1,
                                t,
                                pos + j,
                                caps,
                            ) == Outcome::Hit(m - j, c) && forall|i: int|
                                n + 1 <= i < j ==> (#[trigger] here(e, k + 1, t, pos + i, caps)) is Miss;
                        assert(accepts_at(a, t, pos + n));
                        assert forall|x: int| pos + n <= x < pos + j implies #[trigger] accepts_at(a, t, x) by {
                            if x > pos + n {
                                assert(pos + (n + 1) <= x < pos + j);
                            }
                        }
                        assert forall|i: int| n <= i < j implies (#[trigger] here(e, k + 1, t, pos + i, caps)) is Miss by {}
                    },
                    Outcome::Miss => {
                        assert forall|j: int| n <= j && accepts_run(a, t, pos, n, j) implies (#[trigger] here(
                            e,
                            k + 1,
                            t,
                            pos + j,
                            caps,
                        )) is Miss by {
                            if j > n {
                                assert forall|x: int| pos + (n + 1) <= x < pos + j implies #[trigger] accepts_at(
                                    a,
                                    t,
                                    x,
                                ) by {
                                    assert(pos + n <= x < pos + j);
                                }
                            }
                        }
                    },
                    _ => {},
                }
            }
        },
    }
}

/// The empty pattern matches the empty string at the start of any text.
pub proof fn law_empty_pattern_matches_at_start(t: Seq<u8>)
    ensures
        search(compile_spec(Seq::empty()), t) == SearchModel::Found(0, 0, initial_caps()),
{
    assert(compile_spec(Seq::empty()) =~= Seq::<ElemModel>::empty());
}

// ── Substitute ───────────────────────────────────────────────

/// Substituting line by line keeps the remembered substitute command, the
/// file name and the line count, and leaves the buffer marked modified when
/// it was, or when a line changed.
pub proof fn lemma_subst_lines_keeps_memory(
    e: Seq<ElemModel>,
    r: Seq<u8>,
    g: bool,
    b: BufferView,
    n: int,
    end: int,
    last: Option<int>,
)
    ensures
        subst_lines(e, r, g, b, n, end, last).0.last_subst == b.last_subst,
        subst_lines(e, r, g, b, n, end, last).0.filename == b.filename,
        subst_lines(e, r, g, b, n, end, last).0.lines.len() == b.lines.len(),
        b.modified ==> subst_lines(e, r, g, b, n, end, last).0.modified,
        subst_lines(e, r, g, b, n, end, last).0.lines != b.lines ==> subst_lines(
            e,
            r,
            g,
            b,
            n,
            end,
            last,
        ).0.modified,
    decreases end + 1 - n,
{
    if n > end || n < 1 || n > b.lines.len() {
    } else {
        lemma_subst_lines_keeps_memory(e, r, g, b, n + 1, end, last);
        match crate::subst::line_subst(e, vstd::utf8::encode_utf8(b.lines[n - 1]), r, g) {
            crate::subst::SubstModel::Changed(nb) => {
                lemma_subst_lines_keeps_memory(
                    e,
                    r,
                    g,
                    crate::buffer::replaced(b, n, crate::text::lossy_utf8(nb)),
                    n + 1,
                    end,
                    Some(n),
                );
            },
            _ => {},
        }
    }
}

/// A bare `s` repeats the remembered substitute (pattern, replacement and
/// global flag) and leaves the memory as it was.
pub proof fn law_bare_s_repeats(sp: Spec, b: BufferView, p: Seq<u8>, r: Seq<u8>, g: bool)
    requires
        b.last_subst == Some((p, r, g)),
    ensures
        subst_spec(sp, b, Seq::empty()) == subst_apply(sp, b, p, r, g),
        subst_spec(sp, b, Seq::empty()).1.last_subst == Some((p, r, g)),
{
    lemma_subst_apply_keeps_memory(sp, b, p, r, g);
}

/// Applying a substitute leaves the remembered command as it was, and marks
/// the buffer modified when it changes a line.
pub proof fn lemma_subst_apply_keeps_memory(sp: Spec, b: BufferView, p: Seq<u8>, r: Seq<u8>, g: bool)
    ensures
        subst_apply(sp, b, p, r, g).1.last_subst == b.last_subst,
        subst_apply(sp, b, p, r, g).1.lines != b.lines ==> subst_apply(sp, b, p, r, g).1.modified,
{
    match resolve_spec(sp.start, sp.end, b, (Address::Current, Address::Current)) {
        None => {},
        Some((s, en)) => {
            lemma_subst_lines_keeps_memory(compile_spec(p), r, g, b, s as int, en as int, None);
        },
    }
}

/// `^` anchors at the start of the line even in a global substitute: with a
/// pattern that begins with `^`, `s/re/new/g` does exactly what `s/re/new/`
/// does.
pub proof fn law_anchored_global_substitute_is_single(e: Seq<ElemModel>, t: Seq<u8>, r: Seq<u8>)
    requires
        anchored(e),
    ensures
        subst_all_spec(e, t, r) == subst_first_spec(e, t, r),
{
    lemma_search_bounds(e, t);
    match search(e, t) {
        SearchModel::Found(s, en, c) => {
            assert(s == 0) by {
                lemma_search_from_leftmost(e, t, 0);
            }
            let x = expand_spec(r, MatchModel { start: s, end: en, caps: c }, t);
            assert(t.subrange(0, 0) =~= Seq::<u8>::empty());
            if en == s {
                if t.len() > 0 {
                    assert(subst_all_from(e, t, r, 1) == Some((t.skip(1), false)));
                    assert(Seq::<u8>::empty() + x + seq![t[0]] + t.skip(1) =~= t.take(0) + x + t.skip(0));
                } else {
                    assert(subst_all_from(e, t, r, 1) == Some((Seq::<u8>::empty(), false)));
                    assert(Seq::<u8>::empty() + x + Seq::<u8>::empty() + Seq::<u8>::empty() =~= t.take(0) + x + t.skip(0));
                }
            } else {
                assert(subst_all_from(e, t, r, en) == Some((t.skip(en), false)));
                assert(Seq::<u8>::empty() + x + t.skip(en) =~= t.take(0) + x + t.skip(en));
            }
        },
        _ => {},
    }
}

/// A line after a substitute on it: the rebuilt line when the pattern
/// matched, the line itself otherwise.
pub open spec fn substituted_line(e: Seq<ElemModel>, r: Seq<u8>, g: bool, line: Seq<char>) -> Seq<char> {
    match line_subst(e, vstd::utf8::encode_utf8(line), r, g) {
        SubstModel::Changed(nb) => lossy_utf8(nb),
        _ => line,
    }
}

proof fn lemma_subst_lines_each(
    e: Seq<ElemModel>,
    r: Seq<u8>,
    g: bool,
    b: BufferView,
    n: int,
    end: int,
    last: Option<int>,
)
    requires
        1 <= n,
    ensures
        !subst_lines(e, r, g, b, n, end, last).2 ==> {
            let b2 = subst_lines(e, r, g, b, n, end, last).0;
            &&& b2.lines.len() == b.lines.len()
            &&& forall|k: int|
                1 <= k <= b.lines.len() ==> #[trigger] b2.lines[k - 1] == if n <= k <= end {
                    substituted_line(e, r, g, b.lines[k - 1])
                } else {
                    b.lines[k - 1]
                }
        },
    decreases end + 1 - n,
{
    if n > end || n > b.lines.len() {
    } else {
        let line = b.lines[n - 1];
        match line_subst(e, vstd::utf8::encode_utf8(line), r, g) {
            SubstModel::Unsupported => {},
            SubstModel::Unchanged => {
                lemma_subst_lines_each(e, r, g, b, n + 1, end, last);
            },
            SubstModel::Changed(nb) => {
                let b1 = crate::buffer::replaced(b, n, lossy_utf8(nb));
                lemma_subst_lines_each(e, r, g, b1, n + 1, end, Some(n));
                let b2 = subst_lines(e, r, g, b, n, end, last).0;
                if !subst_lines(e, r, g, b, n, end, last).2 {
                    assert forall|k: int| 1 <= k <= b.lines.len() implies #[trigger] b2.lines[k - 1]
                        == if n <= k <= end {
                        substituted_line(e, r, g, b.lines[k - 1])
                    } else {
                        b.lines[k - 1]
                    } by {
                        assert(b1.lines[k - 1] == if k == n {
                            lossy_utf8(nb)
                        } else {
                            b.lines[k - 1]
                        });
                        assert(b2.lines[k - 1] == if n + 1 <= k <= end {
                            substituted_line(e, r, g, b1.lines[k - 1])
                        } else {
                            b1.lines[k - 1]
                        });
                    }
                }
            },
        }
    }
}

/// A substitute that succeeds over lines `s..=e` rebuilds every line of the
/// range on which the pattern matches, keeps the others of the range, and
/// leaves every line outside the range as it was; the last changed line of
/// the range becomes current.
pub proof fn law_substitute_covers_the_range(
    sp: Spec,
    b: BufferView,
    p: Seq<u8>,
    r: Seq<u8>,
    g: bool,
    s: nat,
    en: nat,
)
    requires
        resolve_spec(sp.start, sp.end, b, (Address::Current, Address::Current)) == Some((s, en)),
        subst_apply(sp, b, p, r, g).0 is Print,
    ensures
        subst_apply(sp, b, p, r, g).1.lines.len() == b.lines.len(),
        forall|k: int|
            1 <= k <= b.lines.len() ==> #[trigger] subst_apply(sp, b, p, r, g).1.lines[k - 1] == if s
                <= k <= en {
                substituted_line(compile_spec(p), r, g, b.lines[k - 1])
            } else {
                b.lines[k - 1]
            },
        s <= subst_apply(sp, b, p, r, g).1.current <= en,
{
    lemma_subst_lines_each(compile_spec(p), r, g, b, s as int, en as int, None);
    lemma_subst_last(compile_spec(p), r, g, b, s as int, en as int, None, s as int);
}

proof fn lemma_subst_last(
    e: Seq<ElemModel>,
    r: Seq<u8>,
    g: bool,
    b: BufferView,
    n: int,
    end: int,
    last: Option<int>,
    lo: int,
)
    requires
        lo <= n,
        last matches Some(l) ==> lo <= l <= end,
    ensures
        subst_lines(e, r, g, b, n, end, last).1 matches Some(l) ==> lo <= l <= end,
    decreases end + 1 - n,
{
    if n > end || n < 1 || n > b.lines.len() {
    } else {
        match line_subst(e, vstd::utf8::encode_utf8(b.lines[n - 1]), r, g) {
            SubstModel::Unsupported => {},
            SubstModel::Unchanged => {
                lemma_subst_last(e, r, g, b, n + 1, end, last, lo);
            },
            SubstModel::Changed(nb) => {
                lemma_subst_last(
                    e,
                    r,
                    g,
                    crate::buffer::replaced(b, n, lossy_utf8(nb)),
                    n + 1,
                    end,
                    Some(n),
                    lo,
                );
            },
        }
    }
}

// ── Join and move ────────────────────────────────────────────

/// Joining is literal concatenation with no separator: the first line of the
/// range becomes the lines run together and the others go.
pub proof fn law_join_concatenates(sp: Spec, b: BufferView)
    ensures
        resolve_spec(sp.start, sp.end, b, (Address::Current, Address::Offset(1))) matches Some((s, e))
            ==> s < e ==> {
            &&& join_spec(sp, b).1.lines[s - 1] == concat_lines(b.lines, s as int, e as int)
            &&& join_spec(sp, b).1.lines.len() == b.lines.len() - (e - s)
            &&& join_spec(sp, b).1.current == s
        },
{
}

/// Moving lines rearranges them: no line is lost or duplicated.
pub proof fn law_move_permutes(sp: Spec, b: BufferView, arg: Seq<char>)
    ensures
        move_spec(sp, b, arg).0 is Print ==> {
            &&& move_spec(sp, b, arg).1.lines.len() == b.lines.len()
            &&& move_spec(sp, b, arg).1.lines.to_multiset() == b.lines.to_multiset()
        },
{
    match resolve_spec(sp.start, sp.end, b, (Address::Current, Address::Current)) {
        None => {},
        Some((s, e)) => match crate::address::dest_spec(arg, b) {
            None => {},
            Some((d, _)) => {
                if !(s <= d <= e) {
                    let moved = b.lines.subrange(s - 1, e as int);
                    let count = e - s + 1;
                    let rem = lines_without(b.lines, s as int, e as int);
                    let adj = if d > e {
                        d - count
                    } else {
                        d as int
                    };
                    let a = b.lines.subrange(0, s - 1);
                    let z = b.lines.subrange(e as int, b.lines.len() as int);
                    assert(b.lines =~= a + moved + z);
                    assert(rem =~= a + z);
                    assert(rem =~= rem.take(adj) + rem.skip(adj));
                    lemma_multiset_commutative(a + moved, z);
                    lemma_multiset_commutative(a, moved);
                    lemma_multiset_commutative(a, z);
                    lemma_multiset_commutative(rem.take(adj) + moved, rem.skip(adj));
                    lemma_multiset_commutative(rem.take(adj), moved);
                    lemma_multiset_commutative(rem.take(adj), rem.skip(adj));
                    let res = rem.take(adj) + moved + rem.skip(adj);
                    let ma = a.to_multiset();
                    let mm = moved.to_multiset();
                    let mz = z.to_multiset();
                    let mt = rem.take(adj).to_multiset();
                    let mk = rem.skip(adj).to_multiset();
                    assert(b.lines.to_multiset() == ma.add(mm).add(mz));
                    assert(rem.to_multiset() == ma.add(mz));
                    assert(rem.to_multiset() == mt.add(mk));
                    assert(res.to_multiset() == mt.add(mm).add(mk));
                    assert(mt.add(mm).add(mk) =~= mt.add(mk).add(mm));
                    assert(ma.add(mm).add(mz) =~= ma.add(mz).add(mm));
                    assert(res.to_multiset() =~= b.lines.to_multiset());
                }
            },
        },
    }
}

/// Moving lines `s..=e` after line `d` (outside the range) puts them right
/// after what was line `d`, keeping every other line in order: after a later
/// line they follow the lines between the range and `d`; after an earlier
/// one they precede the lines between `d` and the range. The last moved line
/// becomes current.
pub proof fn law_move_lands_after_destination(sp: Spec, b: BufferView, arg: Seq<char>, s: nat, e: nat, d: nat)
    requires
        resolve_spec(sp.start, sp.end, b, (Address::Current, Address::Current)) == Some((s, e)),
        crate::address::dest_spec(arg, b) matches Some((d2, _)) && d2 == d,
        !(s <= d <= e),
    ensures
        move_spec(sp, b, arg).0 is Print,
        d > e ==> move_spec(sp, b, arg).1.lines == b.lines.take(s - 1) + b.lines.subrange(e as int, d as int)
            + b.lines.subrange(s - 1, e as int) + b.lines.skip(d as int),
        d > e ==> move_spec(sp, b, arg).1.current == d,
        d < s ==> move_spec(sp, b, arg).1.lines == b.lines.take(d as int) + b.lines.subrange(s - 1, e as int)
            + b.lines.subrange(d as int, s - 1) + b.lines.skip(e as int),
        d < s ==> move_spec(sp, b, arg).1.current == d + (e - s + 1),
{
    let count = e - s + 1;
    let rem = lines_without(b.lines, s as int, e as int);
    let moved = b.lines.subrange(s - 1, e as int);
    let out = move_spec(sp, b, arg).1.lines;
    if d > e {
        let adj = d - count;
        assert(rem.take(adj) =~= b.lines.take(s - 1) + b.lines.subrange(e as int, d as int));
        assert(rem.skip(adj) =~= b.lines.skip(d as int));
        assert(out =~= b.lines.take(s - 1) + b.lines.subrange(e as int, d as int) + moved
            + b.lines.skip(d as int));
    } else {
        assert(rem.take(d as int) =~= b.lines.take(d as int));
        assert(rem.skip(d as int) =~= b.lines.subrange(d as int, s - 1) + b.lines.skip(e as int));
        assert(out =~= b.lines.take(d as int) + moved + (b.lines.subrange(d as int, s - 1)
            + b.lines.skip(e as int)));
    }
}

/// Copying lines `s..=e` after line `d` (any line, inside the range too)
/// inserts a copy of them right after what was line `d`: the lines up to `d`
/// stay, the copy follows, and the rest follows the copy. The last copied
/// line becomes current.
pub proof fn law_copy_lands_after_destination(sp: Spec, b: BufferView, arg: Seq<char>, s: nat, e: nat, d: nat)
    requires
        resolve_spec(sp.start, sp.end, b, (Address::Current, Address::Current)) == Some((s, e)),
        crate::address::dest_spec(arg, b) matches Some((d2, _)) && d2 == d,
    ensures
        transfer_spec(sp, b, arg).0 is Print,
        ({
            let out = transfer_spec(sp, b, arg).1;
            let c = e - s + 1;
            &&& out.lines.len() == b.lines.len() + c
            &&& forall|i: int| 0 <= i < d ==> #[trigger] out.lines[i] == b.lines[i]
            &&& forall|j: int| 0 <= j < c ==> #[trigger] out.lines[d + j] == b.lines[s - 1 + j]
            &&& forall|i: int| d <= i < b.lines.len() ==> #[trigger] out.lines[i + c] == b.lines[i]
            &&& out.current == d + c
            &&& out.modified
        }),
{
    let c = e - s + 1;
    let out = transfer_spec(sp, b, arg).1;
    let copied = b.lines.subrange(s - 1, e as int);
    assert forall|j: int| 0 <= j < c implies #[trigger] out.lines[d + j] == b.lines[s - 1 + j] by {
        assert(copied[j] == b.lines[s - 1 + j]);
    }
    assert forall|i: int| d <= i < b.lines.len() implies #[trigger] out.lines[i + c] == b.lines[i] by {
        assert(b.lines.skip(d as int)[i - d] == b.lines[i]);
    }
}

/// `r` with no address reads the file in after the last line, wherever the
/// current line is.
pub proof fn law_read_defaults_to_last_line(b: BufferView, args: Seq<char>, f: Seq<char>)
    requires
        filename_spec(b, args) == Some(f),
    ensures
        read_spec((Spec { start: None, end: None }), b, args) == (ActionModel::Read(b.lines.len(), f), b),
{
}

// ── List rendering ───────────────────────────────────────────

/// `l` shows every line as printable ASCII ending in `$`.
pub proof fn law_list_is_printable(line: Seq<char>)
    ensures
        forall|i: int|
            0 <= i < list_line_spec(line).len() ==> ' ' <= #[trigger] list_line_spec(line)[i] <= '~',
        list_line_spec(line).last() == '$',
{
    let bs = list_bytes(vstd::utf8::encode_utf8(line)).push(36u8);
    lemma_list_bytes_printable(vstd::utf8::encode_utf8(line));
    assert forall|i: int| 0 <= i < bs.len() implies 0x20 <= #[trigger] bs[i] <= 0x7e by {}
    assert forall|i: int| 0 <= i < list_line_spec(line).len() implies ' ' <= #[trigger] list_line_spec(
        line,
    )[i] <= '~' by {
        assert(list_line_spec(line)[i] == bs[i] as char);
        assert(0x20 <= bs[i] <= 0x7e);
    }
}

proof fn lemma_list_bytes_printable(bs: Seq<u8>)
    ensures
        forall|i: int| 0 <= i < list_bytes(bs).len() ==> 0x20 <= #[trigger] list_bytes(bs)[i] <= 0x7e,
    decreases bs.len(),
{
    if bs.len() > 0 {
        lemma_list_bytes_printable(bs.drop_last());
        let a = list_bytes(bs.drop_last());
        let c = list_byte(bs.last());
        let b = bs.last();
        assert(b / 64 < 4 && (b / 8) % 8 < 8 && b % 8 < 8);
        assert forall|i: int| 0 <= i < (a + c).len() implies 0x20 <= #[trigger] (a + c)[i] <= 0x7e by {
            if i < a.len() {
                assert((a + c)[i] == a[i]);
            } else {
                assert((a + c)[i] == c[i - a.len()]);
            }
        }
    }
}

// ── Write, then read back ────────────────────────────────────

pub open spec fn plain_line(l: Seq<char>) -> bool {
    &&& forall|i: int| 0 <= i < l.len() ==> #[trigger] l[i] != '\n'
    &&& (l.len() > 0 ==> l.last() != '\r')
}

proof fn lemma_write_text_front(lines: Seq<Seq<char>>, s: int, e: int)
    requires
        1 <= s <= e,
    ensures
        write_text(lines, s, e) == lines[s - 1] + "\n"@ + write_text(lines, s + 1, e),
    decreases e - s,
{
    if s == e {
        assert(write_text(lines, s, s - 1) =~= Seq::<char>::empty());
        assert(write_text(lines, s + 1, e) =~= Seq::<char>::empty());
        assert(write_text(lines, s, e) =~= lines[s - 1] + "\n"@ + Seq::<char>::empty());
    } else {
        lemma_write_text_front(lines, s, e - 1);
        assert(write_text(lines, s, e) =~= lines[s - 1] + "\n"@ + write_text(lines, s + 1, e));
    }
}

proof fn lemma_newline_after_plain(l: Seq<char>, rest: Seq<char>)
    requires
        forall|i: int| 0 <= i < l.len() ==> #[trigger] l[i] != '\n',
    ensures
        newline_index(l + seq!['\n'] + rest) == l.len(),
    decreases l.len(),
{
    if l.len() > 0 {
        let t = l.drop_first();
        assert forall|i: int| 0 <= i < t.len() implies #[trigger] t[i] != '\n' by {
            assert(t[i] == l[i + 1]);
        }
        lemma_newline_after_plain(t, rest);
        assert((l + seq!['\n'] + rest).drop_first() =~= t + seq!['\n'] + rest);
    } else {
        assert((l + seq!['\n'] + rest)[0] == '\n');
    }
}

proof fn lemma_read_back(lines: Seq<Seq<char>>, s: int, e: int)
    requires
        1 <= s <= e + 1,
        e <= lines.len(),
        forall|i: int| 0 <= i < lines.len() ==> plain_line(#[trigger] lines[i]),
    ensures
        lines_spec(write_text(lines, s, e)) == lines.subrange(s - 1, e),
    decreases e + 1 - s,
{
    reveal_strlit("\n");
    if s > e {
        assert(write_text(lines, s, e) =~= Seq::<char>::empty());
        assert(lines.subrange(s - 1, e) =~= Seq::<Seq<char>>::empty());
    } else {
        lemma_write_text_front(lines, s, e);
        lemma_read_back(lines, s + 1, e);
        let l = lines[s - 1];
        let rest = write_text(lines, s + 1, e);
        let whole = l + "\n"@ + rest;
        assert("\n"@ =~= seq!['\n']);
        assert(plain_line(l));
        lemma_newline_after_plain(l, rest);
        assert(whole.take(l.len() as int) =~= l);
        assert(whole.skip(l.len() + 1int) =~= rest);
        assert(strip_cr(l) == l);
        assert(lines.subrange(s - 1, e) =~= seq![l] + lines.subrange(s, e));
    }
}

/// Writing the whole buffer and loading the file into an empty buffer gives
/// the same lines back, for lines that hold no newline and do not end in a
/// carriage return (which the line splitter would take as a line ending).
pub proof fn law_write_then_load(lines: Seq<Seq<char>>, f: Seq<char>)
    requires
        forall|i: int| 0 <= i < lines.len() ==> plain_line(#[trigger] lines[i]),
    ensures
        loaded_spec(empty_view(), f, write_text(lines, 1, lines.len() as int)).lines == lines,
{
    lemma_read_back(lines, 1, lines.len() as int);
    assert(lines.subrange(0, lines.len() as int) =~= lines);
    assert(Seq::<Seq<char>>::empty() + lines =~= lines);
}

// ── Global commands ──────────────────────────────────────────

/// `g` marks exactly the lines of its range that the pattern matches, and
/// `v` exactly those it does not match.
pub proof fn law_global_marks_matching_lines(
    e: Seq<ElemModel>,
    lines: Seq<Seq<char>>,
    n: int,
    end: int,
    invert: bool,
)
    requires
        1 <= n,
    ensures
        mark_spec(e, lines, n, end, invert) matches Some(ms) ==> forall|k: int|
            #![trigger ms.contains(k)]
            ms.contains(k) <==> (n <= k <= end && k <= lines.len() && (search(
                e,
                vstd::utf8::encode_utf8(lines[k - 1]),
            ) is Found) != invert),
    decreases end + 1 - n,
{
    if n > end || n > lines.len() {
    } else {
        law_global_marks_matching_lines(e, lines, n + 1, end, invert);
        let found = search(e, vstd::utf8::encode_utf8(lines[n - 1]));
        match mark_spec(e, lines, n + 1, end, invert) {
            None => {},
            Some(rest) => {
                if (found is Found) != invert {
                    let ms = seq![n] + rest;
                    assert forall|k: int| #![trigger ms.contains(k)] ms.contains(k) <==> (k == n
                        || rest.contains(k)) by {
                        if ms.contains(k) {
                            let i = choose|i: int| 0 <= i < ms.len() && ms[i] == k;
                            if i > 0 {
                                assert(rest[i - 1] == k);
                            }
                        }
                        if rest.contains(k) {
                            let i = choose|i: int| 0 <= i < rest.len() && rest[i] == k;
                            assert(ms[i + 1] == k);
                        }
                        if k == n {
                            assert(ms[0] == k);
                        }
                    }
                }
            },
        }
    }
}

// ── The modified flag ────────────────────────────────────────

/// Every command that edits lines marks the buffer modified: a delete that
/// succeeds always does, and a join, move, copy or substitute does whenever
/// it changes the lines.
pub proof fn law_edits_mark_modified(sp: Spec, b: BufferView, arg: Seq<char>)
    ensures
        delete_spec(sp, b).0 is Print ==> delete_spec(sp, b).1.modified,
        join_spec(sp, b).1.lines != b.lines ==> join_spec(sp, b).1.modified,
        move_spec(sp, b, arg).1.lines != b.lines ==> move_spec(sp, b, arg).1.modified,
        transfer_spec(sp, b, arg).1.lines != b.lines ==> transfer_spec(sp, b, arg).1.modified,
        subst_spec(sp, b, arg).1.lines != b.lines ==> subst_spec(sp, b, arg).1.modified,
{
    match b.last_subst {
        Some((p, r, g)) => lemma_subst_apply_keeps_memory(sp, b, p, r, g),
        None => {},
    }
    let a = vstd::utf8::encode_utf8(arg);
    if a.len() > 0 {
        let rest1 = a.skip(1);
        match crate::subst::scan_spec(rest1, a[0], 0) {
            None => {},
            Some((p, j1)) => {
                let rest2 = rest1.skip(j1);
                match crate::subst::scan_spec(rest2, a[0], 0) {
                    None => {},
                    Some((r, j2)) => {
                        let g = rest2.skip(j2).contains(103u8);
                        lemma_subst_apply_keeps_memory(
                            sp,
                            BufferView { last_subst: Some((p, r, g)), ..b },
                            p,
                            r,
                            g,
                        );
                    },
                }
            },
        }
    }
}

// ── Files in another encoding ────────────────────────────────

/// The file that looked like another encoding when it was opened is never
/// overwritten: `w` to it is refused and leaves the buffer as it was, `w`
/// never asks to write it, and `e` keeps it protected.
pub proof fn law_protected_file_is_never_written(sp: Spec, b: BufferView, args: Seq<char>)
    ensures
        write_spec(sp, b, args).0 matches ActionModel::Write(f, _, _) ==> protecting(b, f) is None,
        filename_spec(b, args) matches Some(f) ==> protecting(b, f) matches Some(e) ==> write_spec(
            sp,
            b,
            args,
        ) == (ActionModel::Error(protected_msg(f, e)), b),
        edit_spec(b, args).1.protected == b.protected,
{
}

// ── Quitting ─────────────────────────────────────────────────

proof fn lemma_one_letter_command(c: char, b: BufferView)
    requires
        c == 'q' || c == 'Q' || c == 'e',
    ensures
        trim_line_spec(seq![c]) == seq![c],
        trim_start_spec(seq![c]) == seq![c],
        parse_spec(seq![c]) == Some((None::<Address>, None::<Address>, seq![c])),
{
    let s = seq![c];
    assert(s.drop_last() =~= Seq::<char>::empty());
    assert(trailing(s, '\n') == 0);
    assert(trailing(s, '\r') == 0);
    assert(s.take(1) =~= s);
    assert(white_run(s) == 0);
    assert(s.skip(0) =~= s);
}

/// `q` quits at once when the buffer holds no unsaved change; with unsaved
/// changes the first `q` only warns and the next one quits; `Q` always
/// quits. None of them changes the buffer.
pub proof fn law_quit_needs_confirmation(b: BufferView, warned: bool)
    ensures
        step_spec(false, warned, b, "q"@).2 == b,
        !b.modified ==> step_spec(false, warned, b, "q"@).3 == StepModel::Exit,
        b.modified ==> step_spec(false, false, b, "q"@) == (
            false,
            true,
            b,
            StepModel::Output(Some(modified_warning())),
        ),
        step_spec(false, true, b, "q"@).3 == StepModel::Exit,
        step_spec(false, warned, b, "Q"@).2 == b,
        step_spec(false, warned, b, "Q"@).3 == StepModel::Exit,
{
    reveal_strlit("q");
    reveal_strlit("Q");
    reveal_strlit("quit");
    lemma_one_letter_command('q', b);
    lemma_one_letter_command('Q', b);
    assert("q"@ =~= seq!['q']);
    assert("Q"@ =~= seq!['Q']);
    // `Q` is told apart from every command word that the dispatcher tries first.
    reveal_strlit("a");
    reveal_strlit("i");
    reveal_strlit("c");
    reveal_strlit("d");
    reveal_strlit("p");
    reveal_strlit("n");
    reveal_strlit("l");
    reveal_strlit("j");
    reveal_strlit("H");
    reveal_strlit("append");
    reveal_strlit("insert");
    reveal_strlit("change");
    reveal_strlit("delete");
    reveal_strlit("print");
    reveal_strlit("number");
    reveal_strlit("list");
    reveal_strlit("join");
    reveal_strlit("help");
    assert(dispatch_spec("q"@, b) == (ActionModel::Quit, b));
    assert(dispatch_spec("Q"@, b) == (ActionModel::ForceQuit, b));
}

/// `e` on a buffer with unsaved changes only warns, as `q` does, and leaves
/// the buffer as it was; repeating it goes ahead and empties the buffer for
/// the file to be loaded. Without unsaved changes it goes ahead at once.
pub proof fn law_edit_needs_confirmation(b: BufferView, f: Seq<char>, warned: bool)
    ensures
        b.modified ==> step_spec(false, false, b, "e"@) == (
            false,
            true,
            b,
            StepModel::Output(Some(modified_warning())),
        ),
        b.modified && b.lines.len() < MAX_LINES && b.filename == Some(f) ==> step_spec(
            false,
            true,
            b,
            "e"@,
        ) == (
            false,
            false,
            BufferView { protected: b.protected, ..empty_view() },
            StepModel::Io(ActionModel::Edit(f)),
        ),
        !b.modified && b.filename == Some(f) ==> step_spec(false, warned, b, "e"@) == (
            false,
            false,
            BufferView { protected: b.protected, ..empty_view() },
            StepModel::Io(ActionModel::Edit(f)),
        ),
{
    reveal_strlit("e");
    reveal_strlit("? ");
    reveal_strlit("warning: buffer modified");
    reveal_strlit("? warning: buffer modified");
    assert("? "@ + unsaved_msg() =~= modified_warning());
    assert("e"@ =~= seq!['e']);
    lemma_one_letter_command('e', b);
    assert(seq!['e'].drop_first() =~= Seq::<char>::empty());
    assert(trim_start_spec(Seq::<char>::empty()) =~= Seq::<char>::empty());
    reveal_strlit("q");
    reveal_strlit("Q");
    reveal_strlit("quit");
    reveal_strlit("a");
    reveal_strlit("i");
    reveal_strlit("c");
    reveal_strlit("d");
    reveal_strlit("p");
    reveal_strlit("n");
    reveal_strlit("l");
    reveal_strlit("j");
    reveal_strlit("H");
    reveal_strlit("append");
    reveal_strlit("insert");
    reveal_strlit("change");
    reveal_strlit("delete");
    reveal_strlit("print");
    reveal_strlit("number");
    reveal_strlit("list");
    reveal_strlit("join");
    reveal_strlit("help");
    let b2 = BufferView { modified: false, ..b };
    assert(dispatch_spec("e"@, b) == edit_spec(b, Seq::empty()));
    assert(dispatch_spec("e"@, b2) == edit_spec(b2, Seq::empty()));
}

} // verus!
