//! The substitute command: `s/re/new/[g]`, and a bare `s` that repeats the
//! last one.

use vstd::prelude::*;
use crate::action::{Action, ActionModel};
use crate::address::{invalid_address_msg, resolve_spec, Address, Spec};
use crate::ascii::BACKSLASH;
use crate::bre::{
    compile_spec, expand_replacement, expand_spec, lemma_search_at_bounds, lemma_search_bounds, search, search_at, ElemModel,
    MatchModel, Regex, Search, SearchModel,
};
use crate::buffer::{replaced, with_current, Buffer, BufferView};
use crate::text::{lossy_utf8, string_from_bytes};
use vstd::utf8::encode_utf8;

verus! {

// ── Delimited fields ─────────────────────────────────────────

/// Scan a field of `inp` from `i` up to an unescaped `delim`: the field's
/// bytes (an escaped delimiter loses its backslash, other escapes are kept
/// whole) and the index just past the delimiter; `None` if no delimiter
/// closes it.
pub open spec fn scan_spec(inp: Seq<u8>, delim: u8, i: int) -> Option<(Seq<u8>, int)>
    decreases inp.len() - i,
{
    if i < 0 || i >= inp.len() {
        None
    } else if inp[i] == delim {
        Some((Seq::empty(), i + 1))
    } else if inp[i] == BACKSLASH && i + 1 < inp.len() {
        let c: Seq<u8> = if inp[i + 1] == delim {
            seq![delim]
        } else {
            seq![inp[i], inp[i + 1]]
        };
        match scan_spec(inp, delim, i + 2) {
            Some((r, j)) => Some((c + r, j)),
            None => None,
        }
    } else {
        match scan_spec(inp, delim, i + 1) {
            Some((r, j)) => Some((seq![inp[i]] + r, j)),
            None => None,
        }
    }
}

/// Scan a delimiter-terminated field, handling backslash escapes. Returns
/// the field (escapes preserved for the BRE engine) and the remainder after
/// the closing delimiter.
pub fn scan_delimited(input: &[u8], delim: u8) -> (r: Option<(Vec<u8>, &[u8])>)
    ensures
        match scan_spec(input@, delim, 0) {
            Some((f, j)) => r matches Some((f2, rest)) && f2@ == f && rest@ == input@.skip(j),
            None => r is None,
        },
{
    let mut result: Vec<u8> = Vec::new();
    let mut i: usize = 0;
    while i < input.len()
        invariant
            i <= input@.len(),
            match scan_spec(input@, delim, 0) {
                Some((f, j)) => scan_spec(input@, delim, i as int) matches Some((f2, j2)) && f
                    == result@ + f2 && j2 == j,
                None => scan_spec(input@, delim, i as int) is None,
            },
        decreases input@.len() - i,
    {
        let ghost before = result@;
        if input[i] == delim {
            proof {
                assert(result@ =~= result@ + Seq::<u8>::empty());
            }
            return Some((result, &input[i + 1..input.len()]));
        }
        if input[i] == BACKSLASH && input.len() - i > 1 {
            if input[i + 1] == delim {
                result.push(delim);
            } else {
                result.push(input[i]);
                result.push(input[i + 1]);
            }
            proof {
                match scan_spec(input@, delim, i + 2) {
                    Some((f2, j2)) => {
                        let c: Seq<u8> = if input@[i + 1] == delim {
                            seq![delim]
                        } else {
                            seq![input@[i as int], input@[i + 1]]
                        };
                        assert(before + (c + f2) =~= result@ + f2);
                    },
                    None => {},
                }
            }
            i += 2;
        } else {
            result.push(input[i]);
            proof {
                match scan_spec(input@, delim, i + 1) {
                    Some((f2, j2)) => {
                        assert(before + (seq![input@[i as int]] + f2) =~= result@ + f2);
                    },
                    None => {},
                }
            }
            i += 1;
        }
    }
    None
}

// ── Substitution on one line ─────────────────────────────────

/// What substituting in one line did: the new bytes, no match, or the
/// pattern reached a group beyond 9.
pub enum Substituted {
    Changed(Vec<u8>),
    Unchanged,
    GroupLimit,
}

pub enum SubstModel {
    Changed(Seq<u8>),
    Unchanged,
    Unsupported,
}

impl View for Substituted {
    type V = SubstModel;

    open spec fn view(&self) -> SubstModel {
        match self {
            Substituted::Changed(v) => SubstModel::Changed(v@),
            Substituted::Unchanged => SubstModel::Unchanged,
            Substituted::GroupLimit => SubstModel::Unsupported,
        }
    }
}

/// Replace the first match of `e` in `t` by the expansion of `r`.
pub open spec fn subst_first_spec(e: Seq<ElemModel>, t: Seq<u8>, r: Seq<u8>) -> SubstModel {
    match search(e, t) {
        SearchModel::Found(s, en, c) => SubstModel::Changed(
            t.take(s) + expand_spec(r, MatchModel { start: s, end: en, caps: c }, t) + t.skip(en),
        ),
        SearchModel::NotFound => SubstModel::Unchanged,
        SearchModel::Unsupported => SubstModel::Unsupported,
    }
}

/// Replace the first match in `text`.
pub fn substitute_first(re: &Regex, text: &[u8], replacement: &[u8]) -> (r: Substituted)
    ensures
        r@ == subst_first_spec(re@, text@, replacement@),
{
    match re.search(text) {
        Search::Found(m) => {
            proof {
                lemma_search_bounds(re@, text@);
            }
            let mut result: Vec<u8> = Vec::new();
            crate::bre::push_range(&mut result, text, 0, m.start);
            let exp = expand_replacement(replacement, &m, text);
            let mut exp = exp;
            result.append(&mut exp);
            crate::bre::push_range(&mut result, text, m.end, text.len());
            proof {
                assert(text@.subrange(0, m.start as int) =~= text@.take(m.start as int));
                assert(text@.subrange(m.end as int, text@.len() as int) =~= text@.skip(
                    m.end as int,
                ));
            }
            Substituted::Changed(result)
        },
        Search::NotFound => Substituted::Unchanged,
        Search::GroupLimit => Substituted::GroupLimit,
    }
}

/// Replace all matches of `e` in `t` from `pos` on: the rebuilt tail and
/// whether anything matched, or `None` when the pattern reached a group
/// beyond 9. Each search runs over the whole line, so `^` matches only at its
/// start. After an empty match the byte at the match is copied and the
/// search resumes one past it.
pub open spec fn subst_all_from(e: Seq<ElemModel>, t: Seq<u8>, r: Seq<u8>, pos: int) -> Option<(Seq<u8>, bool)>
    decreases t.len() + 1 - pos,
{
    if pos < 0 || pos > t.len() {
        Some((Seq::empty(), false))
    } else {
        match search_at(e, t, pos) {
            SearchModel::Unsupported => None,
            SearchModel::NotFound => Some((t.skip(pos), false)),
            SearchModel::Found(s, en, c) => {
                proof {
                    lemma_search_at_bounds(e, t, pos);
                }
                let head = t.subrange(pos, s) + expand_spec(r, MatchModel { start: s, end: en, caps: c }, t);
                if en == s {
                    let extra: Seq<u8> = if s < t.len() {
                        seq![t[s]]
                    } else {
                        Seq::empty()
                    };
                    match subst_all_from(e, t, r, s + 1) {
                        None => None,
                        Some((rest, _)) => Some((head + extra + rest, true)),
                    }
                } else {
                    match subst_all_from(e, t, r, en) {
                        None => None,
                        Some((rest, _)) => Some((head + rest, true)),
                    }
                }
            },
        }
    }
}

pub open spec fn subst_all_spec(e: Seq<ElemModel>, t: Seq<u8>, r: Seq<u8>) -> SubstModel {
    match subst_all_from(e, t, r, 0) {
        None => SubstModel::Unsupported,
        Some((res, true)) => SubstModel::Changed(res),
        Some((_, false)) => SubstModel::Unchanged,
    }
}

/// Prepend `res` to the tail that `subst_all_from` rebuilds, keeping track of
/// whether anything has matched.
pub open spec fn combine(res: Seq<u8>, matched: bool, tail: Option<(Seq<u8>, bool)>) -> Option<(Seq<u8>, bool)> {
    match tail {
        None => None,
        Some((rest, m)) => Some((res + rest, matched || m)),
    }
}

/// Replace all non-overlapping matches in `text`.
pub fn substitute_all(re: &Regex, text: &[u8], replacement: &[u8]) -> (r: Substituted)
    ensures
        r@ == subst_all_spec(re@, text@, replacement@),
{
    let ghost e = re@;
    let ghost t = text@;
    let ghost rp = replacement@;
    let mut result: Vec<u8> = Vec::new();
    let mut pos: usize = 0;
    let mut matched = false;
    while pos <= text.len()
        invariant
            t == text@,
            e == re@,
            rp == replacement@,
            subst_all_from(e, t, rp, 0) == combine(result@, matched, subst_all_from(e, t, rp, pos as int)),
        decreases text@.len() + 1 - pos,
    {
        proof {
            lemma_search_at_bounds(e, t, pos as int);
        }
        match re.search_at(text, pos) {
            Search::Found(m) => {
                let ghost before = result@;
                let start = m.start;
                let end = m.end;
                crate::bre::push_range(&mut result, text, pos, start);
                let mut exp = expand_replacement(replacement, &m, text);
                result.append(&mut exp);
                if end == start {
                    if start < text.len() {
                        result.push(text[start]);
                    }
                    proof {
                        let head = t.subrange(pos as int, start as int) + expand_spec(rp, m@, t);
                        let extra: Seq<u8> = if start < t.len() {
                            seq![t[start as int]]
                        } else {
                            Seq::empty()
                        };
                        assert(result@ =~= before + (head + extra));
                        match subst_all_from(e, t, rp, start + 1) {
                            None => {},
                            Some((tl, _)) => {
                                assert(before + (head + extra + tl) =~= result@ + tl);
                            },
                        }
                    }
                    if start == text.len() {
                        proof {
                            assert(subst_all_from(e, t, rp, start + 1) == Some(
                                (Seq::<u8>::empty(), false),
                            ));
                            assert(result@ =~= result@ + Seq::<u8>::empty());
                        }
                        return Substituted::Changed(result);
                    }
                    pos = start + 1;
                } else {
                    proof {
                        let head = t.subrange(pos as int, start as int) + expand_spec(rp, m@, t);
                        assert(result@ =~= before + head);
                        match subst_all_from(e, t, rp, end as int) {
                            None => {},
                            Some((tl, _)) => {
                                assert(before + (head + tl) =~= result@ + tl);
                            },
                        }
                    }
                    pos = end;
                }
                matched = true;
            },
            Search::NotFound => {
                let ghost before = result@;
                crate::bre::push_range(&mut result, text, pos, text.len());
                proof {
                    assert(t.subrange(pos as int, t.len() as int) =~= t.skip(pos as int));
                    assert(subst_all_from(e, t, rp, pos as int) == Some((t.skip(pos as int), false)));
                }
                if matched {
                    return Substituted::Changed(result);
                } else {
                    return Substituted::Unchanged;
                }
            },
            Search::GroupLimit => {
                return Substituted::GroupLimit;
            },
        }
    }
    proof {
        assert(result@ =~= result@ + Seq::<u8>::empty());
    }
    if matched {
        Substituted::Changed(result)
    } else {
        Substituted::Unchanged
    }
}


// ── The command ──────────────────────────────────────────────

pub open spec fn group_limit_msg() -> Seq<char> {
    "pattern uses a group beyond \\9"@
}

/// Substitute in one line's bytes, all matches or only the first.
pub open spec fn line_subst(e: Seq<ElemModel>, t: Seq<u8>, r: Seq<u8>, global: bool) -> SubstModel {
    if global {
        subst_all_spec(e, t, r)
    } else {
        subst_first_spec(e, t, r)
    }
}

/// Substitute in lines `n..=end` of `b`: the buffer after it, the last line
/// changed, and whether the pattern reached a group beyond 9 (which stops
/// the walk at that line).
pub open spec fn subst_lines(
    e: Seq<ElemModel>,
    r: Seq<u8>,
    global: bool,
    b: BufferView,
    n: int,
    end: int,
    last: Option<int>,
) -> (BufferView, Option<int>, bool)
    decreases end + 1 - n,
{
    if n > end || n < 1 || n > b.lines.len() {
        (b, last, false)
    } else {
        match line_subst(e, encode_utf8(b.lines[n - 1]), r, global) {
            SubstModel::Unsupported => (b, last, true),
            SubstModel::Unchanged => subst_lines(e, r, global, b, n + 1, end, last),
            SubstModel::Changed(nb) => subst_lines(
                e,
                r,
                global,
                replaced(b, n, lossy_utf8(nb)),
                n + 1,
                end,
                Some(n),
            ),
        }
    }
}

/// Apply pattern `p`, replacement `r` and flag `global` to the addressed
/// lines (default: the current line). The last changed line becomes current
/// and is printed.
pub open spec fn subst_apply(sp: Spec, b: BufferView, p: Seq<u8>, r: Seq<u8>, global: bool) -> (ActionModel, BufferView) {
    match resolve_spec(sp.start, sp.end, b, (Address::Current, Address::Current)) {
        None => (ActionModel::Error(invalid_address_msg()), b),
        Some((s, en)) => {
            let (b2, last, unsupported) = subst_lines(
                compile_spec(p),
                r,
                global,
                b,
                s as int,
                en as int,
                None,
            );
            if unsupported {
                (ActionModel::Error(group_limit_msg()), b2)
            } else {
                match last {
                    Some(n) => (ActionModel::Print(b2.lines[n - 1]), with_current(b2, n)),
                    None => (ActionModel::Error("no match"@), b2),
                }
            }
        },
    }
}

/// `s/re/new/[g]` with the text after `s`: the first byte is the delimiter;
/// the flags after the replacement hold `g` for a global substitute. The
/// command is remembered, and a bare `s` repeats the remembered one.
pub open spec fn subst_spec(sp: Spec, b: BufferView, args: Seq<char>) -> (ActionModel, BufferView) {
    let a = encode_utf8(args);
    if a.len() == 0 {
        match b.last_subst {
            None => (ActionModel::Error("no previous substitute"@), b),
            Some((p, r, g)) => subst_apply(sp, b, p, r, g),
        }
    } else {
        let delim = a[0];
        let rest1 = a.skip(1);
        match scan_spec(rest1, delim, 0) {
            None => (ActionModel::Error("unterminated pattern"@), b),
            Some((p, j1)) => {
                let rest2 = rest1.skip(j1);
                match scan_spec(rest2, delim, 0) {
                    None => (ActionModel::Error("unterminated replacement"@), b),
                    Some((r, j2)) => {
                        let g = rest2.skip(j2).contains(103u8);
                        subst_apply(
                            sp,
                            BufferView { last_subst: Some((p, r, g)), ..b },
                            p,
                            r,
                            g,
                        )
                    },
                }
            },
        }
    }
}

fn copy_bytes(v: &[u8]) -> (r: Vec<u8>)
    ensures
        r@ == v@,
{
    let mut r: Vec<u8> = Vec::new();
    crate::bre::push_range(&mut r, v, 0, v.len());
    proof {
        assert(v@.subrange(0, v@.len() as int) =~= v@);
    }
    r
}

fn contains_byte(v: &[u8], b: u8) -> (r: bool)
    ensures
        r == v@.contains(b),
{
    let mut i: usize = 0;
    while i < v.len()
        invariant
            i <= v@.len(),
            forall|j: int| 0 <= j < i ==> v@[j] != b,
        decreases v@.len() - i,
    {
        if v[i] == b {
            proof {
                assert(v@[i as int] == b);
            }
            return true;
        }
        i += 1;
    }
    false
}

/// Substitute: apply a regex replacement to the addressed lines.
pub fn run_substitute(spec: &Spec, buf: &mut Buffer, args: &str) -> (r: Action)
    requires
        spec.wf(),
    ensures
        (r@, final(buf)@) == subst_spec(*spec, old(buf)@, args@),
{
    let a = args.as_bytes();
    let (pattern, replacement, global) = if a.len() == 0 {
        match buf.last_subst() {
            Some(t) => (copy_bytes(t.0.as_slice()), copy_bytes(t.1.as_slice()), t.2),
            None => {
                return Action::Error("no previous substitute".to_owned());
            },
        }
    } else {
        let delim = a[0];
        let rest1 = &a[1..a.len()];
        proof {
            assert(rest1@ =~= a@.skip(1));
        }
        let (pattern, rest2) = match scan_delimited(rest1, delim) {
            Some(r) => r,
            None => {
                return Action::Error("unterminated pattern".to_owned());
            },
        };
        let (replacement, rest3) = match scan_delimited(rest2, delim) {
            Some(r) => r,
            None => {
                return Action::Error("unterminated replacement".to_owned());
            },
        };
        let global = contains_byte(rest3, 103);
        buf.set_last_subst(copy_bytes(pattern.as_slice()), copy_bytes(replacement.as_slice()), global);
        (pattern, replacement, global)
    };
    let re = Regex::compile(pattern.as_slice());
    let range = match spec.resolve(buf) {
        Ok(r) => r,
        Err(e) => {
            return Action::Error(e);
        },
    };
    let ghost e = re@;
    let ghost b0 = buf@;
    proof {
        assert(subst_spec(*spec, old(buf)@, args@) == subst_apply(
            *spec,
            b0,
            pattern@,
            replacement@,
            global,
        ));
    }
    let mut last: Option<usize> = None;
    let mut n = range.start;
    loop
        invariant_except_break
            subst_lines(e, replacement@, global, b0, range.start as int, range.end as int, None)
                == subst_lines(
                e,
                replacement@,
                global,
                buf@,
                n as int,
                range.end as int,
                match last {
                    Some(k) => Some(k as int),
                    None => None,
                },
            ),
        invariant
            e == re@,
            e == compile_spec(pattern@),
            resolve_spec(spec.start, spec.end, b0, (Address::Current, Address::Current)) == Some(
                (range.start as nat, range.end as nat),
            ),
            subst_spec(*spec, old(buf)@, args@) == subst_apply(
                *spec,
                b0,
                pattern@,
                replacement@,
                global,
            ),
            1 <= range.start <= n <= range.end,
            range.end <= buf@.lines.len(),
            last matches Some(k) ==> 1 <= k <= buf@.lines.len(),
        ensures
            subst_lines(e, replacement@, global, b0, range.start as int, range.end as int, None) == (
            buf@,
            match last {
                Some(k) => Some(k as int),
                None => None,
            },
            false,
            ),
        decreases range.end - n,
    {
        let ghost bn = buf@;
        let ghost lastn: Option<int> = match last {
            Some(k) => Some(k as int),
            None => None,
        };
        let line = match buf.line(n) {
            Some(l) => l.to_owned(),
            None => String::new(),
        };
        let bytes = line.as_str().as_bytes();
        proof {
            assert(bytes@ == encode_utf8(bn.lines[n - 1]));
        }
        let res = if global {
            substitute_all(&re, bytes, replacement.as_slice())
        } else {
            substitute_first(&re, bytes, replacement.as_slice())
        };
        proof {
            assert(res@ == line_subst(e, encode_utf8(bn.lines[n - 1]), replacement@, global));
        }
        match res {
            Substituted::Changed(nb) => {
                let new_line = string_from_bytes(nb.as_slice());
                buf.replace_line(n, new_line);
                last = Some(n);
                proof {
                    assert(subst_lines(e, replacement@, global, bn, n as int, range.end as int, lastn)
                        == subst_lines(
                        e,
                        replacement@,
                        global,
                        buf@,
                        n + 1,
                        range.end as int,
                        Some(n as int),
                    ));
                }
            },
            Substituted::Unchanged => {
                proof {
                    assert(subst_lines(e, replacement@, global, bn, n as int, range.end as int, lastn)
                        == subst_lines(
                        e,
                        replacement@,
                        global,
                        buf@,
                        n + 1,
                        range.end as int,
                        lastn,
                    ));
                }
            },
            Substituted::GroupLimit => {
                proof {
                    assert(subst_lines(e, replacement@, global, bn, n as int, range.end as int, lastn)
                        == (bn, lastn, true));
                }
                return Action::Error("pattern uses a group beyond \\9".to_owned());
            },
        }
        if n == range.end {
            break;
        }
        n += 1;
    }
    match last {
        Some(k) => {
            buf.set_current(k);
            match buf.line(k) {
                Some(s) => Action::Print(s.to_owned()),
                None => Action::Error("invalid address".to_owned()),
            }
        },
        None => Action::Error("no match".to_owned()),
    }
}

} // verus!
