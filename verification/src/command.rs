//! Command dispatch: one command line in, an `Action` out, with the buffer
//! updated. Dispatch is two-stage: an address spec is peeled off the front,
//! then the command letter (or long-form word) that follows decides.

use vstd::prelude::*;
use vstd::string::{StrSliceExecFns, StringExecFns};
use vstd::utf8::{decode_utf8, encode_utf8, valid_utf8, decode_utf8_encode_utf8};
use crate::action::{resume_views, Action, ActionModel, Request, RequestModel, Resume, ResumeModel};
use crate::address::{
    invalid_address_msg, parse_one_spec, parse_spec, resolve_spec, Address, Spec,
};
use crate::bre::{compile_spec, search, ElemModel, Regex, Search, SearchModel};
use crate::buffer::{deleted, with_current, Buffer, BufferView, MAX_LINES};
use crate::edit::{
    delete_spec, help_text, join_spec, move_spec, print_spec, run_delete, run_help, run_join,
    run_move, run_print, run_transfer, transfer_spec, PrintMode,
};
use crate::files::{edit_spec, read_spec, run_edit, run_read, run_write, write_spec};
use crate::subst::{group_limit_msg, run_substitute, scan_delimited, scan_spec, subst_spec};
use crate::text::{
    digit_run, lemma_digit_run, lemma_white_run, str_eq, trim_start, trim_start_spec,
    utf8_to_string, white_run,
};

verus! {

// ── Byte lengths ─────────────────────────────────────────────

/// The length of a text in UTF-8 bytes.
pub open spec fn utf8_len(s: Seq<char>) -> nat {
    encode_utf8(s).len()
}

pub proof fn lemma_encode_split(s: Seq<char>, k: int)
    requires
        0 <= k <= s.len(),
    ensures
        encode_utf8(s) == encode_utf8(s.take(k)) + encode_utf8(s.skip(k)),
    decreases k,
{
    if k == 0 {
        assert(s.take(0) =~= Seq::<char>::empty());
        assert(s.skip(0) =~= s);
        assert(encode_utf8(s.take(0)) =~= Seq::<u8>::empty());
        assert(encode_utf8(s.take(0)) + encode_utf8(s.skip(0)) =~= encode_utf8(s));
    } else {
        let t = s.drop_first();
        lemma_encode_split(t, k - 1);
        assert(s.take(k).drop_first() =~= t.take(k - 1));
        assert(s.skip(k) =~= t.skip(k - 1));
        assert(s.take(k)[0] == s[0]);
        assert(encode_utf8(s.take(k)) == crate::command::encode_head(s[0]) + encode_utf8(t.take(k - 1)));
        assert(encode_utf8(s) == crate::command::encode_head(s[0]) + encode_utf8(t));
        assert(encode_utf8(s) =~= encode_utf8(s.take(k)) + encode_utf8(s.skip(k)));
    }
}

pub open spec fn encode_head(c: char) -> Seq<u8> {
    vstd::utf8::encode_scalar(c as u32)
}

pub proof fn lemma_encode_len_at_least(s: Seq<char>)
    ensures
        utf8_len(s) >= s.len(),
    decreases s.len(),
{
    if s.len() > 0 {
        lemma_encode_len_at_least(s.drop_first());
        assert(encode_head(s[0]).len() >= 1);
    }
}

/// Dropping `k` characters from the front drops at least `k` bytes.
pub proof fn lemma_skip_utf8_len(s: Seq<char>, k: int)
    requires
        0 <= k <= s.len(),
    ensures
        utf8_len(s.skip(k)) + k <= utf8_len(s),
{
    lemma_encode_split(s, k);
    lemma_encode_len_at_least(s.take(k));
}

pub proof fn lemma_p_len()
    ensures
        utf8_len("p"@) == 1,
{
    reveal_strlit("p");
    assert(encode_utf8("p"@) == encode_head('p') + encode_utf8("p"@.drop_first()));
    assert("p"@.drop_first() =~= Seq::<char>::empty());
}

// ── Suffixes ─────────────────────────────────────────────────

/// `r` is what is left of `s` after dropping some characters from the front.
pub open spec fn is_suffix(r: Seq<char>, s: Seq<char>) -> bool {
    r.len() <= s.len() && r == s.skip(s.len() - r.len())
}

pub proof fn lemma_parse_one_suffix(s: Seq<char>)
    ensures
        parse_one_spec(s) matches Some((_, rest)) ==> is_suffix(rest, s),
{
    if s.len() > 0 {
        if s[0] == '.' || s[0] == '$' {
            assert(s.drop_first() =~= s.skip(1));
        } else if s[0] == '+' || s[0] == '-' {
            let tail = s.drop_first();
            lemma_digit_run(tail);
            let d = digit_run(tail) as int;
            assert(tail.skip(d) =~= s.skip(1 + d));
        } else if '0' <= s[0] <= '9' {
            lemma_digit_run(s);
        } else {
            assert(s.skip(0) =~= s);
        }
    } else {
        assert(s.skip(0) =~= s);
    }
}

pub proof fn lemma_parse_suffix(s: Seq<char>)
    ensures
        parse_spec(s) matches Some((_, _, rest)) ==> is_suffix(rest, s),
{
    if s.len() > 0 && (s[0] == ',' || s[0] == ';') {
        assert(s.drop_first() =~= s.skip(1));
    } else {
        lemma_parse_one_suffix(s);
        match parse_one_spec(s) {
            Some((_, rest)) => {
                if rest.len() > 0 && rest[0] == ',' {
                    let r1 = rest.drop_first();
                    lemma_parse_one_suffix(r1);
                    match parse_one_spec(r1) {
                        Some((_, rest2)) => {
                            assert(rest2 =~= s.skip(s.len() - rest2.len()));
                        },
                        None => {},
                    }
                }
            },
            None => {},
        }
    }
}

pub proof fn lemma_scan_index(inp: Seq<u8>, delim: u8, i: int)
    requires
        0 <= i,
    ensures
        scan_spec(inp, delim, i) matches Some((_, j)) ==> i < j <= inp.len(),
    decreases inp.len() - i,
{
    if i < inp.len() && inp[i] != delim {
        if inp[i] == crate::ascii::BACKSLASH && i + 1 < inp.len() {
            lemma_scan_index(inp, delim, i + 2);
        } else {
            lemma_scan_index(inp, delim, i + 1);
        }
    }
}

/// The command `g` runs on each marked line: the text after the pattern
/// (taken as "p" when it is not UTF-8), without leading whitespace, and "p"
/// when nothing is left.
pub open spec fn global_command(rest: Seq<u8>) -> Seq<char> {
    let c0: Seq<char> = if valid_utf8(rest) {
        decode_utf8(rest)
    } else {
        "p"@
    };
    let c1 = trim_start_spec(c0);
    if c1.len() == 0 {
        "p"@
    } else {
        c1
    }
}

pub proof fn lemma_global_command_len(rest: Seq<u8>)
    ensures
        utf8_len(global_command(rest)) <= if rest.len() >= 1 {
            rest.len()
        } else {
            1
        },
{
    lemma_p_len();
    let c0: Seq<char> = if valid_utf8(rest) {
        decode_utf8(rest)
    } else {
        "p"@
    };
    if valid_utf8(rest) {
        decode_utf8_encode_utf8(rest);
    }
    lemma_white_run(c0);
    lemma_skip_utf8_len(c0, white_run(c0) as int);
    if !valid_utf8(rest) && rest.len() == 0 {
    }
}

// ── Semantics ────────────────────────────────────────────────

pub open spec fn append_output(out: Seq<char>, msg: Seq<char>) -> Seq<char> {
    if out.len() == 0 {
        msg
    } else {
        out + "\n"@ + msg
    }
}

/// The lines `n..=end` of `lines` that the pattern matches (or, inverted,
/// does not match); `None` when the pattern reaches a group beyond 9.
pub open spec fn mark_spec(
    e: Seq<ElemModel>,
    lines: Seq<Seq<char>>,
    n: int,
    end: int,
    invert: bool,
) -> Option<Seq<int>>
    decreases end + 1 - n,
{
    if n > end || n < 1 || n > lines.len() {
        Some(Seq::empty())
    } else {
        let found = search(e, encode_utf8(lines[n - 1]));
        if found is Unsupported {
            None
        } else {
            match mark_spec(e, lines, n + 1, end, invert) {
                None => None,
                Some(rest) => if (found is Found) != invert {
                    Some(seq![n] + rest)
                } else {
                    Some(rest)
                },
            }
        }
    }
}

/// `b` after deleting each marked line, the last first.
pub open spec fn delete_marked(b: BufferView, ms: Seq<int>) -> BufferView
    decreases ms.len(),
{
    if ms.len() == 0 {
        b
    } else {
        delete_marked(deleted(b, ms.last(), ms.last()), ms.drop_last())
    }
}

/// One command line: the action and the buffer after it.
pub open spec fn dispatch_spec(cmd: Seq<char>, b: BufferView) -> (ActionModel, BufferView)
    decreases utf8_len(cmd), 2int, 0int,
{
    let c = trim_start_spec(cmd);
    if c.len() == 0 {
        if b.lines.len() == 0 || b.current >= b.lines.len() {
            (ActionModel::Error(invalid_address_msg()), b)
        } else {
            (ActionModel::Print(b.lines[b.current as int]), with_current(b, b.current + 1int))
        }
    } else {
        match parse_spec(c) {
            None => (ActionModel::Error(invalid_address_msg()), b),
            Some((st, en, rest)) => {
                let sp = Spec { start: st, end: en };
                if rest.len() == 0 {
                    print_spec(sp, b, PrintMode::Plain)
                } else if rest == "q"@ || rest == "quit"@ {
                    (ActionModel::Quit, b)
                } else if rest == "a"@ || rest == "append"@ {
                    (
                        ActionModel::EnterInputMode,
                        if b.lines.len() == 0 {
                            b
                        } else {
                            match resolve_spec(st, en, b, (Address::Current, Address::Current)) {
                                Some((_, e)) => with_current(b, e as int),
                                None => b,
                            }
                        },
                    )
                } else if rest == "i"@ || rest == "insert"@ {
                    if b.lines.len() == 0 {
                        (ActionModel::EnterInputMode, b)
                    } else {
                        match resolve_spec(st, en, b, (Address::Current, Address::Current)) {
                            Some((_, e)) => (ActionModel::EnterInputMode, with_current(b, e - 1)),
                            None => (ActionModel::Error(invalid_address_msg()), b),
                        }
                    }
                } else if rest == "c"@ || rest == "change"@ {
                    match resolve_spec(st, en, b, (Address::Current, Address::Current)) {
                        Some((s, e)) => (
                            ActionModel::EnterInputMode,
                            with_current(deleted(b, s as int, e as int), s - 1),
                        ),
                        None => (ActionModel::Error(invalid_address_msg()), b),
                    }
                } else if rest == "d"@ || rest == "delete"@ {
                    delete_spec(sp, b)
                } else if rest == "p"@ || rest == "print"@ {
                    print_spec(sp, b, PrintMode::Plain)
                } else if rest == "n"@ || rest == "number"@ {
                    print_spec(sp, b, PrintMode::Numbered)
                } else if rest == "l"@ || rest == "list"@ {
                    print_spec(sp, b, PrintMode::List)
                } else if rest == "j"@ || rest == "join"@ {
                    join_spec(sp, b)
                } else if rest == "H"@ || rest == "help"@ {
                    (ActionModel::Print(help_text()), b)
                } else if rest == "Q"@ {
                    (ActionModel::ForceQuit, b)
                } else {
                    let first = rest[0];
                    let args = rest.drop_first();
                    if first == 'e' {
                        edit_spec(b, args)
                    } else if first == 'r' {
                        read_spec(sp, b, args)
                    } else if first == 'g' || first == 'v' {
                        proof {
                            lemma_white_run(cmd);
                            lemma_skip_utf8_len(cmd, white_run(cmd) as int);
                            lemma_parse_suffix(c);
                            lemma_skip_utf8_len(c, c.len() - rest.len());
                            assert(args =~= rest.skip(1));
                            lemma_skip_utf8_len(rest, 1);
                        }
                        global_spec(sp, b, args, first == 'v')
                    } else if first == 's' {
                        subst_spec(sp, b, args)
                    } else if first == 'w' {
                        write_spec(sp, b, args)
                    } else if first == 'm' {
                        move_spec(sp, b, args)
                    } else if first == 't' {
                        transfer_spec(sp, b, args)
                    } else {
                        (ActionModel::Error("unknown command: "@ + rest), b)
                    }
                }
            },
        }
    }
}

/// `g/re/cmd` (or `v/re/cmd` with `invert`): mark the addressed lines
/// (default: all) that match (or do not match) `re`, then run `cmd` on each
/// marked line as the current line; a `d` command deletes them all.
pub open spec fn global_spec(sp: Spec, b: BufferView, args: Seq<char>, invert: bool) -> (ActionModel, BufferView)
    decreases utf8_len(args) + 1, 1int, 0int,
{
    let a = encode_utf8(args);
    if a.len() == 0 {
        (ActionModel::Error("no delimiter"@), b)
    } else {
        let delim = a[0];
        let after = a.skip(1);
        match scan_spec(after, delim, 0) {
            None => (ActionModel::Error("unterminated pattern"@), b),
            Some((p, j)) => {
                let cmd = global_command(after.skip(j));
                match resolve_spec(sp.start, sp.end, b, (Address::Number(1), Address::Last)) {
                    None => (ActionModel::Error(invalid_address_msg()), b),
                    Some((s, en)) => match mark_spec(
                        compile_spec(p),
                        b.lines,
                        s as int,
                        en as int,
                        invert,
                    ) {
                        None => (ActionModel::Error(group_limit_msg()), b),
                        Some(ms) => {
                            proof {
                                lemma_scan_index(after, delim, 0);
                                lemma_global_command_len(after.skip(j));
                            }
                            global_marked(cmd, b, ms)
                        },
                    },
                }
            },
        }
    }
}

/// What `g` does once the lines are marked: an error when none is, delete
/// them all for `d`, else run the command on each.
pub open spec fn global_marked(cmd: Seq<char>, b: BufferView, ms: Seq<int>) -> (ActionModel, BufferView)
    decreases utf8_len(cmd) + 1, 0int, ms.len() + 1,
{
    if ms.len() == 0 {
        (ActionModel::Error("no match"@), b)
    } else if cmd == "d"@ {
        (ActionModel::Done, delete_marked(b, ms))
    } else {
        run_marked(cmd, b, ms, 0, Seq::empty())
    }
}

pub open spec fn too_large_msg() -> Seq<char> {
    "buffer too large"@
}

/// What a global command has printed once one more command's outcome is
/// added: its message, errors as `? msg`, one message per output line.
pub open spec fn with_outcome(out: Seq<char>, act: ActionModel) -> Seq<char> {
    match act {
        ActionModel::Print(m) => append_output(out, m),
        ActionModel::Error(m) => append_output(out, "? "@ + m),
        _ => out,
    }
}

/// The file I/O that an action asks for, if any.
pub open spec fn io_request(act: ActionModel) -> Option<RequestModel> {
    match act {
        ActionModel::Edit(f) => Some(RequestModel::Edit(f)),
        ActionModel::Read(n, f) => Some(RequestModel::Read(n, f)),
        ActionModel::Write(f, c, w) => Some(RequestModel::Write(f, c, w)),
        _ => None,
    }
}

/// Run `cmd` on the marked lines from the `i`-th on, collecting what they
/// print. A command that asks for file I/O interrupts the loop: the request
/// goes out with where to go on, put outside any global commands that the
/// command itself interrupted.
pub open spec fn run_marked(cmd: Seq<char>, b: BufferView, ms: Seq<int>, i: int, out: Seq<char>) -> (ActionModel, BufferView)
    decreases utf8_len(cmd) + 1, 0int, ms.len() - i,
{
    if i < 0 || i >= ms.len() {
        (
            if out.len() == 0 {
                ActionModel::Done
            } else {
                ActionModel::Print(out)
            },
            b,
        )
    } else if b.lines.len() > MAX_LINES {
        (ActionModel::Error(too_large_msg()), b)
    } else {
        let (act, b2) = dispatch_spec(cmd, with_current(b, ms[i]));
        let here = ResumeModel { cmd, marks: ms, next: i + 1, output: out };
        match act {
            ActionModel::Suspended(q, st) => (ActionModel::Suspended(q, seq![here] + st), b2),
            _ => match io_request(act) {
                Some(q) => (ActionModel::Suspended(q, seq![here]), b2),
                None => run_marked(cmd, b2, ms, i + 1, with_outcome(out, act)),
            },
        }
    }
}

/// Hand the outcome of the request of a suspended global command back: the
/// innermost interrupted command goes on with it; when it finishes, its
/// result is the outcome for the next one out; a new request suspends again.
pub open spec fn resume_spec(stack: Seq<ResumeModel>, b: BufferView, outcome: ActionModel) -> (ActionModel, BufferView)
    decreases stack.len(),
{
    if stack.len() == 0 {
        (outcome, b)
    } else {
        let r = stack.last();
        let rest = stack.drop_last();
        let (a, b2) = run_marked(r.cmd, b, r.marks, r.next, with_outcome(r.output, outcome));
        match a {
            ActionModel::Suspended(q, st) => (ActionModel::Suspended(q, rest + st), b2),
            _ => resume_spec(rest, b2, a),
        }
    }
}

// ── Marks ────────────────────────────────────────────────────

pub open spec fn as_ints(v: Seq<usize>) -> Seq<int> {
    v.map_values(|x: usize| x as int)
}

/// Prefix the marks found so far to those still to come.
pub open spec fn prefix_marks(m: Seq<int>, o: Option<Seq<int>>) -> Option<Seq<int>> {
    match o {
        None => None,
        Some(r) => Some(m + r),
    }
}

/// Marks come in increasing order inside `n..=end`, spaced so that the
/// `j`-th of them leaves room for the rest before `end`.
pub proof fn lemma_mark_bounds(e: Seq<ElemModel>, lines: Seq<Seq<char>>, n: int, end: int, invert: bool)
    ensures
        mark_spec(e, lines, n, end, invert) matches Some(ms) ==> forall|j: int|
            0 <= j < ms.len() ==> n + j <= #[trigger] ms[j] && ms[j] + (ms.len() - 1 - j) <= end
                && ms[j] <= lines.len(),
    decreases end + 1 - n,
{
    if n > end || n < 1 || n > lines.len() {
    } else {
        lemma_mark_bounds(e, lines, n + 1, end, invert);
        let found = search(e, encode_utf8(lines[n - 1]));
        if !(found is Unsupported) {
            match mark_spec(e, lines, n + 1, end, invert) {
                None => {},
                Some(rest) => {
                    if (found is Found) != invert {
                        let ms = seq![n] + rest;
                        assert forall|j: int| 0 <= j < ms.len() implies n + j <= #[trigger] ms[j]
                            && ms[j] + (ms.len() - 1 - j) <= end && ms[j] <= lines.len() by {
                            if j > 0 {
                                assert(ms[j] == rest[j - 1]);
                            } else if rest.len() > 0 {
                                assert(rest[0] + (rest.len() - 1) <= end);
                            }
                        }
                    }
                },
            }
        }
    }
}

fn is_word(rest: &str, short: &str, long: &str) -> (r: bool)
    ensures
        r == (rest@ == short@ || rest@ == long@),
{
    str_eq(rest, short) || str_eq(rest, long)
}

/// Dispatch a single command line.
pub fn dispatch(cmd: &str, buf: &mut Buffer) -> (r: Action)
    requires
        old(buf)@.lines.len() <= MAX_LINES,
    ensures
        (r@, final(buf)@) == dispatch_spec(cmd@, old(buf)@),
    decreases utf8_len(cmd@), 2int,
{
    let ghost full = cmd@;
    let cmd = trim_start(cmd);
    if cmd.unicode_len() == 0 {
        if buf.is_empty() || buf.current() >= buf.len() {
            return Action::Error(crate::address::invalid_address());
        }
        let next = buf.current() + 1;
        buf.set_current(next);
        return match buf.line(next) {
            Some(s) => Action::Print(s.to_owned()),
            None => Action::Error(crate::address::invalid_address()),
        };
    }
    let (spec, rest) = match Spec::parse(cmd) {
        Ok(parsed) => parsed,
        Err(e) => {
            return Action::Error(e);
        },
    };
    let ghost sp = Spec { start: spec.start, end: spec.end };
    proof {
        assert(sp == spec);
    }
    if rest.unicode_len() == 0 {
        return run_print(&spec, buf, PrintMode::Plain);
    }
    if is_word(rest, "q", "quit") {
        return Action::Quit;
    }
    if is_word(rest, "a", "append") {
        if !buf.is_empty() {
            match spec.resolve(buf) {
                Ok(r) => {
                    buf.set_current(r.end);
                },
                Err(_) => {},
            }
        }
        return Action::EnterInputMode;
    }
    if is_word(rest, "i", "insert") {
        if !buf.is_empty() {
            let addr = match spec.resolve(buf) {
                Ok(r) => r.end,
                Err(e) => {
                    return Action::Error(e);
                },
            };
            buf.set_current(addr - 1);
        }
        return Action::EnterInputMode;
    }
    if is_word(rest, "c", "change") {
        let range = match spec.resolve(buf) {
            Ok(r) => r,
            Err(e) => {
                return Action::Error(e);
            },
        };
        let start = range.start;
        buf.delete_range(range.start, range.end);
        buf.set_current(start - 1);
        return Action::EnterInputMode;
    }
    if is_word(rest, "d", "delete") {
        return run_delete(&spec, buf);
    }
    if is_word(rest, "p", "print") {
        return run_print(&spec, buf, PrintMode::Plain);
    }
    if is_word(rest, "n", "number") {
        return run_print(&spec, buf, PrintMode::Numbered);
    }
    if is_word(rest, "l", "list") {
        return run_print(&spec, buf, PrintMode::List);
    }
    if is_word(rest, "j", "join") {
        return run_join(&spec, buf);
    }
    if is_word(rest, "H", "help") {
        return run_help();
    }
    if str_eq(rest, "Q") {
        return Action::ForceQuit;
    }
    let n = rest.unicode_len();
    let first = rest.get_char(0);
    let args = rest.substring_char(1, n);
    proof {
        assert(args@ =~= rest@.drop_first());
    }
    if first == 'e' {
        run_edit(buf, args)
    } else if first == 'r' {
        run_read(&spec, buf, args)
    } else if first == 'g' || first == 'v' {
        proof {
            let c = cmd@;
            lemma_white_run(full);
            lemma_skip_utf8_len(full, white_run(full) as int);
            lemma_parse_suffix(c);
            lemma_skip_utf8_len(c, c.len() - rest@.len());
            assert(args@ =~= rest@.skip(1));
            lemma_skip_utf8_len(rest@, 1);
        }
        run_global(&spec, buf, args, first == 'v')
    } else if first == 's' {
        run_substitute(&spec, buf, args)
    } else if first == 'w' {
        run_write(&spec, buf, args)
    } else if first == 'm' {
        run_move(&spec, buf, args)
    } else if first == 't' {
        run_transfer(&spec, buf, args)
    } else {
        let mut msg = "unknown command: ".to_owned();
        msg.append(rest);
        Action::Error(msg)
    }
}

/// Global command: run a command on the lines that match (or, inverted, do
/// not match) a pattern.
fn run_global(spec: &Spec, buf: &mut Buffer, args: &str, invert: bool) -> (r: Action)
    requires
        spec.wf(),
        old(buf)@.lines.len() <= MAX_LINES,
    ensures
        (r@, final(buf)@) == global_spec(*spec, old(buf)@, args@, invert),
    decreases utf8_len(args@) + 1, 1int,
{
    let a = args.as_bytes();
    if a.len() == 0 {
        return Action::Error("no delimiter".to_owned());
    }
    let delim = a[0];
    let after = &a[1..a.len()];
    proof {
        assert(after@ =~= a@.skip(1));
    }
    let (pattern, rest) = match scan_delimited(after, delim) {
        Some(r) => r,
        None => {
            return Action::Error("unterminated pattern".to_owned());
        },
    };
    let cmd_string: String = match utf8_to_string(rest) {
        Some(s) => s,
        None => "p".to_owned(),
    };
    let trimmed = trim_start(cmd_string.as_str());
    let cmd: &str = if trimmed.unicode_len() == 0 {
        "p"
    } else {
        trimmed
    };
    proof {
        assert(cmd@ == global_command(rest@));
    }
    let re = Regex::compile(pattern.as_slice());
    let range = match spec.resolve_or_whole(buf) {
        Ok(r) => r,
        Err(e) => {
            return Action::Error(e);
        },
    };
    let ghost e = re@;
    let ghost b0 = buf@;
    let ghost lines = buf@.lines;
    let ghost spec_result = global_spec(*spec, old(buf)@, args@, invert);
    proof {
        lemma_scan_index(after@, delim, 0);
        lemma_global_command_len(rest@);
        assert(utf8_len(cmd@) <= utf8_len(args@));
        assert(spec_result == match mark_spec(
            e,
            lines,
            range.start as int,
            range.end as int,
            invert,
        ) {
            None => (ActionModel::Error(group_limit_msg()), b0),
            Some(ms) => global_marked(cmd@, b0, ms),
        });
    }
    let mut marked: Vec<usize> = Vec::new();
    let mut n = range.start;
    loop
        invariant_except_break
            mark_spec(e, lines, range.start as int, range.end as int, invert) == prefix_marks(
                as_ints(marked@),
                mark_spec(e, lines, n as int, range.end as int, invert),
            ),
        invariant
            spec_result == global_spec(*spec, old(buf)@, args@, invert),
            e == re@,
            lines == buf@.lines,
            b0 == buf@,
            1 <= range.start <= n <= range.end,
            range.end <= lines.len(),
            spec_result == match mark_spec(
                e,
                lines,
                range.start as int,
                range.end as int,
                invert,
            ) {
                None => (ActionModel::Error(group_limit_msg()), b0),
                Some(ms) => global_marked(cmd@, b0, ms),
            },
        ensures
            mark_spec(e, lines, range.start as int, range.end as int, invert) == Some(
                as_ints(marked@),
            ),
        decreases range.end - n,
    {
        let ghost before = marked@;
        let matched = match buf.line(n) {
            Some(line) => match re.search(line.as_bytes()) {
                Search::Found(_) => true,
                Search::NotFound => false,
                Search::GroupLimit => {
                    proof {
                        assert(mark_spec(e, lines, n as int, range.end as int, invert) is None);
                    }
                    return Action::Error("pattern uses a group beyond \\9".to_owned());
                },
            },
            None => false,
        };
        if matched != invert {
            marked.push(n);
        }
        proof {
            let ghost rest_n1 = mark_spec(e, lines, n + 1, range.end as int, invert);
            if matched != invert {
                assert(as_ints(marked@) =~= as_ints(before) + seq![n as int]);
                match rest_n1 {
                    Some(r) => {
                        assert(as_ints(before) + (seq![n as int] + r) =~= as_ints(marked@) + r);
                    },
                    None => {},
                }
            } else {
                assert(as_ints(marked@) =~= as_ints(before));
            }
            if n == range.end {
                match rest_n1 {
                    Some(r) => {
                        assert(r =~= Seq::<int>::empty());
                        assert(as_ints(marked@) + r =~= as_ints(marked@));
                    },
                    None => {},
                }
            }
        }
        if n == range.end {
            break;
        }
        n += 1;
    }
    let ghost ms = as_ints(marked@);
    proof {
        lemma_mark_bounds(e, lines, range.start as int, range.end as int, invert);
    }
    if marked.len() == 0 {
        return Action::Error("no match".to_owned());
    }
    proof {
        assert(spec_result == global_marked(cmd@, b0, ms));
    }
    if str_eq(cmd, "d") {
        let mut k = marked.len();
        proof {
            assert(ms.take(ms.len() as int) =~= ms);
        }
        while k > 0
            invariant
                spec_result == global_spec(*spec, old(buf)@, args@, invert),
                spec_result == global_marked(cmd@, b0, ms),
                1 <= range.start,
                range.end <= b0.lines.len(),
                k <= marked@.len(),
                ms == as_ints(marked@),
                delete_marked(b0, ms) == delete_marked(buf@, ms.take(k as int)),
                buf@.lines.len() == b0.lines.len() - (ms.len() - k),
                forall|j: int|
                    0 <= j < ms.len() ==> range.start + j <= #[trigger] ms[j] && ms[j] + (ms.len() - 1
                        - j) <= range.end && ms[j] <= b0.lines.len(),
            decreases k,
        {
            let ghost bk = buf@;
            k -= 1;
            let m = marked[k];
            proof {
                assert(ms[k as int] == m as int);
                assert(range.start + k <= ms[k as int]);
                assert(ms[k as int] + (ms.len() - 1 - k) <= range.end);
                assert(ms.take(k + 1).last() == m as int);
                assert(ms.take(k + 1).drop_last() =~= ms.take(k as int));
            }
            buf.delete_range(m, m);
            proof {
                assert(buf@.lines.len() == bk.lines.len() - 1);
            }
        }
        proof {
            assert(ms.take(0) =~= Seq::<int>::empty());
        }
        return Action::Done;
    }
    run_marks(cmd, buf, marked, 0, String::new())
}

/// Add one command's outcome to what a global command has printed.
fn add_outcome(output: &mut String, act: &Action)
    ensures
        final(output)@ == with_outcome(old(output)@, act@),
{
    let ghost oi = output@;
    match act {
        Action::Print(msg) => {
            if !output.as_str().is_empty() {
                output.append("\n");
            }
            output.append(msg.as_str());
        },
        Action::Error(msg) => {
            if !output.as_str().is_empty() {
                output.append("\n");
            }
            output.append("? ");
            output.append(msg.as_str());
            proof {
                if oi.len() == 0 {
                    assert(output@ =~= "? "@ + msg@);
                } else {
                    assert(output@ =~= oi + "\n"@ + ("? "@ + msg@));
                }
            }
        },
        _ => {},
    }
}

/// The I/O request of a file command.
fn request_of(act: Action) -> (r: Result<Request, Action>)
    ensures
        match io_request(act@) {
            Some(q) => r matches Ok(q2) && q2@ == q,
            None => r matches Err(a) && a@ == act@,
        },
{
    match act {
        Action::Edit(f) => Ok(Request::Edit(f)),
        Action::Read(n, f) => Ok(Request::Read(n, f)),
        Action::Write(f, c, w) => Ok(Request::Write(f, c, w)),
        other => Err(other),
    }
}

/// Run `cmd` on the marked lines from the `start`-th on; see `run_marked`.
#[verifier::loop_isolation(false)]
fn run_marks(cmd: &str, buf: &mut Buffer, marks: Vec<usize>, start: usize, printed: String) -> (r: Action)
    ensures
        (r@, final(buf)@) == run_marked(cmd@, old(buf)@, as_ints(marks@), start as int, printed@),
    decreases utf8_len(cmd@) + 1, 0int,
{
    let ghost ms = as_ints(marks@);
    let ghost out0 = printed@;
    let ghost b0 = buf@;
    let mut output = printed;
    let mut i = start;
    if i >= marks.len() {
        return if output.as_str().is_empty() {
            Action::Done
        } else {
            Action::Print(output)
        };
    }
    while i < marks.len()
        invariant
            start <= i <= marks@.len(),
            ms == as_ints(marks@),
            run_marked(cmd@, b0, ms, start as int, out0) == run_marked(
                cmd@,
                buf@,
                ms,
                i as int,
                output@,
            ),
        decreases marks@.len() - i,
    {
        if buf.len() > MAX_LINES {
            return Action::Error("buffer too large".to_owned());
        }
        let m = marks[i];
        buf.set_current(m);
        let act = dispatch(cmd, buf);
        let ghost av = act@;
        match act {
            Action::Suspended(q, inner) => {
                let mut stack: Vec<Resume> = Vec::new();
                stack.push(Resume { cmd: cmd.to_owned(), marks, next: i + 1, output });
                let mut inner = inner;
                let ghost s0 = stack@;
                let ghost si = inner@;
                stack.append(&mut inner);
                proof {
                    assert(resume_views(stack@) =~= resume_views(s0) + resume_views(si));
                    assert(resume_views(s0) =~= seq![s0[0]@]);
                }
                return Action::Suspended(q, stack);
            },
            other => match request_of(other) {
                Ok(q) => {
                    let mut stack: Vec<Resume> = Vec::new();
                    stack.push(Resume { cmd: cmd.to_owned(), marks, next: i + 1, output });
                    proof {
                        assert(resume_views(stack@) =~= seq![stack@[0]@]);
                    }
                    return Action::Suspended(q, stack);
                },
                Err(a) => {
                    add_outcome(&mut output, &a);
                },
            },
        }
        i += 1;
    }
    if output.as_str().is_empty() {
        Action::Done
    } else {
        Action::Print(output)
    }
}

/// Hand the outcome of a suspended global command's file I/O back: the
/// interrupted commands go on, innermost first, until they finish or one of
/// them asks for file I/O again.
#[verifier::loop_isolation(false)]
pub fn resume_global(pending: Vec<Resume>, buf: &mut Buffer, outcome: Action) -> (r: Action)
    ensures
        (r@, final(buf)@) == resume_spec(resume_views(pending@), old(buf)@, outcome@),
{
    let ghost goal = resume_spec(resume_views(pending@), buf@, outcome@);
    let mut stack = pending;
    let mut act = outcome;
    loop
        invariant
            resume_spec(resume_views(stack@), buf@, act@) == goal,
        decreases stack@.len(),
    {
        let ghost sv = resume_views(stack@);
        match stack.pop() {
            None => {
                return act;
            },
            Some(r) => {
                proof {
                    assert(resume_views(stack@) =~= sv.drop_last());
                }
                let Resume { cmd, marks, next, output } = r;
                let mut output = output;
                add_outcome(&mut output, &act);
                let a = run_marks(cmd.as_str(), buf, marks, next, output);
                match a {
                    Action::Suspended(q, inner) => {
                        let mut inner = inner;
                        let ghost s0 = stack@;
                        let ghost si = inner@;
                        stack.append(&mut inner);
                        proof {
                            assert(resume_views(stack@) =~= resume_views(s0) + resume_views(si));
                        }
                        return Action::Suspended(q, stack);
                    },
                    other => {
                        act = other;
                    },
                }
            },
        }
    }
}

} // verus!
