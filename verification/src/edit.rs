//! The commands that print or rearrange lines: `p`/`n`/`l`, `d`, `j`, `m`,
//! `t`, and the `H` reference.

use vstd::prelude::*;
use vstd::string::StringExecFns;
use crate::action::{Action, ActionModel};
use crate::address::{
    dest_spec, invalid_address_msg, parse_dest, resolve_spec, Address, Spec,
};
use crate::buffer::{
    appended, deleted, replaced, with_current, Buffer, BufferView, MAX_LINES,
};
use crate::text::{all_ascii, ascii_chars, ascii_string, decimal_chars, decimal_string};
use vstd::utf8::encode_utf8;

verus! {

// ── Messages ─────────────────────────────────────────────────

pub open spec fn range_text(s: int, e: int) -> Seq<char> {
    "("@ + decimal_chars(s as nat) + "-"@ + decimal_chars(e as nat) + ")"@
}

fn range_string(s: usize, e: usize) -> (r: String)
    ensures
        r@ == range_text(s as int, e as int),
{
    let mut r = "(".to_owned();
    r.append(decimal_string(s).as_str());
    r.append("-");
    r.append(decimal_string(e).as_str());
    r.append(")");
    r
}

pub open spec fn delete_msg(s: int, e: int) -> Seq<char> {
    if e - s + 1 == 1 {
        "deleted line "@ + decimal_chars(s as nat)
    } else {
        "deleted "@ + decimal_chars((e - s + 1) as nat) + " lines "@ + range_text(s, e)
    }
}

pub open spec fn join_msg(s: int, e: int) -> Seq<char> {
    "joined "@ + decimal_chars((e - s + 1) as nat) + " lines "@ + range_text(s, e)
        + " into line "@ + decimal_chars(s as nat)
}

pub open spec fn move_msg(verb: Seq<char>, s: int, e: int, d: int) -> Seq<char> {
    verb + decimal_chars((e - s + 1) as nat) + " lines "@ + range_text(s, e)
        + " to after "@ + decimal_chars(d as nat)
}

pub open spec fn invalid_destination_msg() -> Seq<char> {
    "invalid destination"@
}

// ── Print ────────────────────────────────────────────────────

#[derive(PartialEq, Eq, Structural)]
pub enum PrintMode {
    Plain,
    Numbered,
    List,
}

/// The `l` rendering of one byte: `\\` for a backslash, printable ASCII as
/// itself, anything else as `\NNN` in octal.
pub open spec fn list_byte(b: u8) -> Seq<u8> {
    if b == 92 {
        seq![92u8, 92u8]
    } else if 0x20 <= b <= 0x7e {
        seq![b]
    } else {
        seq![92u8, (48 + b / 64) as u8, (48 + (b / 8) % 8) as u8, (48 + b % 8) as u8]
    }
}

pub open spec fn list_bytes(bs: Seq<u8>) -> Seq<u8>
    decreases bs.len(),
{
    if bs.len() == 0 {
        Seq::empty()
    } else {
        list_bytes(bs.drop_last()) + list_byte(bs.last())
    }
}

/// A line as `l` shows it: every byte of its UTF-8 form rendered, then `$`.
pub open spec fn list_line_spec(line: Seq<char>) -> Seq<char> {
    ascii_chars(list_bytes(encode_utf8(line)).push(36u8))
}

pub proof fn lemma_list_bytes_ascii(bs: Seq<u8>)
    ensures
        all_ascii(list_bytes(bs)),
    decreases bs.len(),
{
    if bs.len() > 0 {
        lemma_list_bytes_ascii(bs.drop_last());
        let a = list_bytes(bs.drop_last());
        let b = list_byte(bs.last());
        assert forall|i: int| 0 <= i < (a + b).len() implies #[trigger] (a + b)[i] < 128 by {
            if i < a.len() {
                assert((a + b)[i] == a[i]);
            } else {
                assert((a + b)[i] == b[i - a.len()]);
            }
        }
    }
}

/// Render a line for the `l` (list) command.
pub fn render_list_line(line: &str) -> (r: String)
    ensures
        r@ == list_line_spec(line@),
{
    let bytes = line.as_bytes();
    let mut out: Vec<u8> = Vec::new();
    let mut i: usize = 0;
    while i < bytes.len()
        invariant
            i <= bytes@.len(),
            bytes@ == encode_utf8(line@),
            out@ == list_bytes(bytes@.take(i as int)),
        decreases bytes@.len() - i,
    {
        let b = bytes[i];
        proof {
            assert(bytes@.take(i + 1).drop_last() =~= bytes@.take(i as int));
        }
        if b == 92 {
            out.push(92);
            out.push(92);
            proof {
                assert(out@ =~= list_bytes(bytes@.take(i as int)) + list_byte(b));
            }
        } else if 0x20 <= b && b <= 0x7e {
            out.push(b);
            proof {
                assert(out@ =~= list_bytes(bytes@.take(i as int)) + list_byte(b));
            }
        } else {
            out.push(92);
            out.push(48 + b / 64);
            out.push(48 + (b / 8) % 8);
            out.push(48 + b % 8);
            proof {
                assert(out@ =~= list_bytes(bytes@.take(i as int)) + list_byte(b));
            }
        }
        i += 1;
    }
    proof {
        assert(bytes@.take(i as int) =~= bytes@);
        lemma_list_bytes_ascii(bytes@);
    }
    out.push(36);
    proof {
        let l = list_bytes(bytes@);
        assert forall|k: int| 0 <= k < out@.len() implies #[trigger] out@[k] < 128 by {
            if k < l.len() {
                assert(out@[k] == l[k]);
            }
        }
    }
    ascii_string(out.as_slice())
}

/// Line `n` as a print mode shows it.
pub open spec fn print_line_spec(lines: Seq<Seq<char>>, n: int, mode: PrintMode) -> Seq<char> {
    match mode {
        PrintMode::Plain => lines[n - 1],
        PrintMode::Numbered => decimal_chars(n as nat) + "\t"@ + lines[n - 1],
        PrintMode::List => list_line_spec(lines[n - 1]),
    }
}

/// Lines `s..=e` as a print mode shows them, one per output line.
pub open spec fn print_block(lines: Seq<Seq<char>>, s: int, e: int, mode: PrintMode) -> Seq<char>
    decreases e - s,
{
    if e <= s {
        print_line_spec(lines, s, mode)
    } else {
        print_block(lines, s, e - 1, mode) + "\n"@ + print_line_spec(lines, e, mode)
    }
}

/// `p`, `n` or `l`: print the addressed lines (default: the current line)
/// and make the last of them current.
pub open spec fn print_spec(sp: Spec, b: BufferView, mode: PrintMode) -> (ActionModel, BufferView) {
    match resolve_spec(sp.start, sp.end, b, (Address::Current, Address::Current)) {
        None => (ActionModel::Error(invalid_address_msg()), b),
        Some((s, e)) => (
            ActionModel::Print(print_block(b.lines, s as int, e as int, mode)),
            with_current(b, e as int),
        ),
    }
}

pub fn run_print(spec: &Spec, buf: &mut Buffer, mode: PrintMode) -> (r: Action)
    requires
        spec.wf(),
    ensures
        (r@, final(buf)@) == print_spec(*spec, old(buf)@, mode),
{
    let range = match spec.resolve(buf) {
        Ok(r) => r,
        Err(e) => {
            return Action::Error(e);
        },
    };
    let ghost lines = buf@.lines;
    let mut output = String::new();
    let mut n = range.start;
    loop
        invariant_except_break
            n > range.start ==> output@ == print_block(lines, range.start as int, n - 1, mode),
            n == range.start ==> output@ == Seq::<char>::empty(),
        invariant
            1 <= range.start <= n <= range.end,
            range.end <= lines.len(),
            lines == buf@.lines,
        ensures
            output@ == print_block(lines, range.start as int, range.end as int, mode),
        decreases range.end - n,
    {
        let ghost before = output@;
        if n > range.start {
            output.append("\n");
        }
        if mode == PrintMode::Numbered {
            output.append(decimal_string(n).as_str());
            output.append("\t");
        }
        match buf.line(n) {
            Some(line) => {
                if mode == PrintMode::List {
                    output.append(render_list_line(line).as_str());
                } else {
                    output.append(line);
                }
            },
            None => {},
        }
        proof {
            assert(output@ =~= print_block(lines, range.start as int, n as int, mode));
        }
        if n == range.end {
            break;
        }
        n += 1;
    }
    buf.set_current(range.end);
    Action::Print(output)
}

// ── Delete ───────────────────────────────────────────────────

/// `d`: delete the addressed lines (default: the current line).
pub open spec fn delete_spec(sp: Spec, b: BufferView) -> (ActionModel, BufferView) {
    match resolve_spec(sp.start, sp.end, b, (Address::Current, Address::Current)) {
        None => (ActionModel::Error(invalid_address_msg()), b),
        Some((s, e)) => (ActionModel::Print(delete_msg(s as int, e as int)), deleted(b, s as int, e as int)),
    }
}

pub fn run_delete(spec: &Spec, buf: &mut Buffer) -> (r: Action)
    requires
        spec.wf(),
    ensures
        (r@, final(buf)@) == delete_spec(*spec, old(buf)@),
{
    let range = match spec.resolve(buf) {
        Ok(r) => r,
        Err(e) => {
            return Action::Error(e);
        },
    };
    let count = range.end - range.start + 1;
    buf.delete_range(range.start, range.end);
    if count == 1 {
        let mut m = "deleted line ".to_owned();
        m.append(decimal_string(range.start).as_str());
        Action::Print(m)
    } else {
        let mut m = "deleted ".to_owned();
        m.append(decimal_string(count).as_str());
        m.append(" lines ");
        m.append(range_string(range.start, range.end).as_str());
        Action::Print(m)
    }
}

// ── Join ─────────────────────────────────────────────────────

/// Lines `s..=e` concatenated with no separator.
pub open spec fn concat_lines(lines: Seq<Seq<char>>, s: int, e: int) -> Seq<char>
    decreases e - s + 1,
{
    if e < s {
        Seq::empty()
    } else {
        concat_lines(lines, s, e - 1) + lines[e - 1]
    }
}

/// `j`: join the addressed lines (default: the current line and the next)
/// into one line at the start of the range, which becomes current. A single
/// line is a silent no-op that still sets the current line.
pub open spec fn join_spec(sp: Spec, b: BufferView) -> (ActionModel, BufferView) {
    match resolve_spec(sp.start, sp.end, b, (Address::Current, Address::Offset(1))) {
        None => (ActionModel::Error(invalid_address_msg()), b),
        Some((s, e)) => if s == e {
            (ActionModel::Print(Seq::empty()), with_current(b, s as int))
        } else {
            let joined = concat_lines(b.lines, s as int, e as int);
            (
                ActionModel::Print(join_msg(s as int, e as int)),
                with_current(deleted(replaced(b, s as int, joined), s + 1int, e as int), s as int),
            )
        },
    }
}

pub fn run_join(spec: &Spec, buf: &mut Buffer) -> (r: Action)
    requires
        spec.wf(),
    ensures
        (r@, final(buf)@) == join_spec(*spec, old(buf)@),
{
    let range = match spec.resolve_or_pair_with_next(buf) {
        Ok(r) => r,
        Err(e) => {
            return Action::Error(e);
        },
    };
    if range.start == range.end {
        buf.set_current(range.start);
        return Action::Print(String::new());
    }
    let ghost lines = buf@.lines;
    let mut joined = String::new();
    let mut n = range.start;
    loop
        invariant_except_break
            joined@ == concat_lines(lines, range.start as int, n - 1),
        invariant
            1 <= range.start <= n <= range.end,
            range.end <= lines.len(),
            lines == buf@.lines,
        ensures
            joined@ == concat_lines(lines, range.start as int, range.end as int),
        decreases range.end - n,
    {
        match buf.line(n) {
            Some(line) => {
                joined.append(line);
            },
            None => {},
        }
        if n == range.end {
            break;
        }
        n += 1;
    }
    buf.replace_line(range.start, joined);
    buf.delete_range(range.start + 1, range.end);
    buf.set_current(range.start);
    let count = range.end - range.start + 1;
    let mut m = "joined ".to_owned();
    m.append(decimal_string(count).as_str());
    m.append(" lines ");
    m.append(range_string(range.start, range.end).as_str());
    m.append(" into line ");
    m.append(decimal_string(range.start).as_str());
    Action::Print(m)
}

// ── Move and transfer ────────────────────────────────────────

/// Copies of lines `s..=e` of the buffer.
fn collect_lines(buf: &Buffer, s: usize, e: usize) -> (v: Vec<String>)
    requires
        1 <= s <= e <= buf@.lines.len(),
    ensures
        v@.map_values(|l: String| l@) == buf@.lines.subrange(s - 1, e as int),
{
    let mut v: Vec<String> = Vec::new();
    let mut n = s;
    loop
        invariant_except_break
            v@.map_values(|l: String| l@) == buf@.lines.subrange(s - 1, n - 1),
        invariant
            1 <= s <= n <= e,
            e <= buf@.lines.len(),
        ensures
            v@.map_values(|l: String| l@) == buf@.lines.subrange(s - 1, e as int),
        decreases e - n,
    {
        let ghost before = v@;
        match buf.line(n) {
            Some(line) => {
                let copy = line.to_owned();
                v.push(copy);
                proof {
                    assert(v@ == before.push(copy));
                    assert(copy@ == buf@.lines[n - 1]);
                    assert(v@.map_values(|l: String| l@) =~= before.map_values(|l: String| l@).push(
                        copy@,
                    ));
                }
            },
            None => {},
        }
        proof {
            assert(v@.map_values(|l: String| l@) =~= buf@.lines.subrange(s - 1, n as int));
        }
        if n == e {
            break;
        }
        n += 1;
    }
    v
}

/// Insert `lines` after line `at` of the buffer, one after another.
fn insert_lines(buf: &mut Buffer, at: usize, lines: Vec<String>)
    requires
        at <= old(buf)@.lines.len(),
        old(buf)@.lines.len() + lines@.len() <= usize::MAX,
        lines@.len() > 0,
    ensures
        final(buf)@ == (BufferView {
            lines: old(buf)@.lines.take(at as int) + lines@.map_values(|l: String| l@)
                + old(buf)@.lines.skip(at as int),
            current: (at + lines@.len()) as nat,
            modified: true,
            ..old(buf)@
        }),
{
    let ghost b0 = buf@;
    let ghost block = lines@.map_values(|l: String| l@);
    let count = lines.len();
    let mut i: usize = 0;
    while i < count
        invariant
            i <= count,
            count == lines@.len(),
            block == lines@.map_values(|l: String| l@),
            at <= b0.lines.len(),
            b0.lines.len() + count <= usize::MAX,
            count > 0,
            i == 0 ==> buf@ == b0,
            i > 0 ==> buf@ == (BufferView {
                lines: b0.lines.take(at as int) + block.take(i as int) + b0.lines.skip(at as int),
                current: (at + i) as nat,
                modified: true,
                ..b0
            }),
        decreases count - i,
    {
        proof {
            if i > 0 {
                assert(buf@.lines.len() == b0.lines.len() + i);
            }
        }
        buf.append_after(at + i, lines[i].clone());
        proof {
            assert(buf@.lines =~= b0.lines.take(at as int) + block.take(i + 1) + b0.lines.skip(
                at as int,
            ));
        }
        i += 1;
    }
    proof {
        assert(block.take(i as int) =~= block);
    }
}

/// `m`: move the addressed lines (default: the current line) to after the
/// destination; a destination inside the range is refused.
pub open spec fn move_spec(sp: Spec, b: BufferView, arg: Seq<char>) -> (ActionModel, BufferView) {
    match resolve_spec(sp.start, sp.end, b, (Address::Current, Address::Current)) {
        None => (ActionModel::Error(invalid_address_msg()), b),
        Some((s, e)) => match dest_spec(arg, b) {
            None => (ActionModel::Error(invalid_address_msg()), b),
            Some((d, _)) => if s <= d <= e {
                (ActionModel::Error(invalid_destination_msg()), b)
            } else {
                let moved = b.lines.subrange(s - 1, e as int);
                let count = e - s + 1;
                let b1 = deleted(b, s as int, e as int);
                let adj = if d > e {
                    d - count
                } else {
                    d as int
                };
                (
                    ActionModel::Print(move_msg("moved "@, s as int, e as int, d as int)),
                    BufferView {
                        lines: b1.lines.take(adj) + moved + b1.lines.skip(adj),
                        current: (adj + count) as nat,
                        modified: true,
                        ..b1
                    },
                )
            },
        },
    }
}

pub fn run_move(spec: &Spec, buf: &mut Buffer, dest_arg: &str) -> (r: Action)
    requires
        spec.wf(),
    ensures
        (r@, final(buf)@) == move_spec(*spec, old(buf)@, dest_arg@),
{
    let range = match spec.resolve(buf) {
        Ok(r) => r,
        Err(e) => {
            return Action::Error(e);
        },
    };
    let dest = match parse_dest(dest_arg, buf) {
        Ok((d, _)) => d,
        Err(e) => {
            return Action::Error(e);
        },
    };
    if dest >= range.start && dest <= range.end {
        return Action::Error("invalid destination".to_owned());
    }
    let total = buf.len();
    let lines = collect_lines(buf, range.start, range.end);
    let count = lines.len();
    buf.delete_range(range.start, range.end);
    let adjusted = if dest > range.end {
        dest - count
    } else {
        dest
    };
    let ghost b1 = buf@;
    insert_lines(buf, adjusted, lines);
    buf.set_current(adjusted + count);
    proof {
        assert(count == range.end - range.start + 1);
    }
    let mut m = "moved ".to_owned();
    m.append(decimal_string(count).as_str());
    m.append(" lines ");
    m.append(range_string(range.start, range.end).as_str());
    m.append(" to after ");
    m.append(decimal_string(dest).as_str());
    Action::Print(m)
}

/// `t`: copy the addressed lines (default: the current line) to after the
/// destination, which may lie inside the range.
pub open spec fn transfer_spec(sp: Spec, b: BufferView, arg: Seq<char>) -> (ActionModel, BufferView) {
    match resolve_spec(sp.start, sp.end, b, (Address::Current, Address::Current)) {
        None => (ActionModel::Error(invalid_address_msg()), b),
        Some((s, e)) => match dest_spec(arg, b) {
            None => (ActionModel::Error(invalid_address_msg()), b),
            Some((d, _)) => {
                let copied = b.lines.subrange(s - 1, e as int);
                let count = e - s + 1;
                (
                    ActionModel::Print(move_msg("copied "@, s as int, e as int, d as int)),
                    BufferView {
                        lines: b.lines.take(d as int) + copied + b.lines.skip(d as int),
                        current: (d + count) as nat,
                        modified: true,
                        ..b
                    },
                )
            },
        },
    }
}

pub fn run_transfer(spec: &Spec, buf: &mut Buffer, dest_arg: &str) -> (r: Action)
    requires
        spec.wf(),
        old(buf)@.lines.len() <= MAX_LINES,
    ensures
        (r@, final(buf)@) == transfer_spec(*spec, old(buf)@, dest_arg@),
{
    let range = match spec.resolve(buf) {
        Ok(r) => r,
        Err(e) => {
            return Action::Error(e);
        },
    };
    let dest = match parse_dest(dest_arg, buf) {
        Ok((d, _)) => d,
        Err(e) => {
            return Action::Error(e);
        },
    };
    let lines = collect_lines(buf, range.start, range.end);
    let count = lines.len();
    insert_lines(buf, dest, lines);
    buf.set_current(dest + count);
    let mut m = "copied ".to_owned();
    m.append(decimal_string(count).as_str());
    m.append(" lines ");
    m.append(range_string(range.start, range.end).as_str());
    m.append(" to after ");
    m.append(decimal_string(dest).as_str());
    Action::Print(m)
}

// ── Help ─────────────────────────────────────────────────────

pub open spec fn help_text() -> Seq<char> {
    "ved commands (addresses shown in brackets are optional):

  [.]a, append       Append text after the addressed line. End with '.'
  [.]i, insert       Insert text before the addressed line. End with '.'
  [.,.]c, change     Replace the addressed lines with new text. End with '.'
  [.,.]d, delete     Delete the addressed lines
  [.,.]p, print      Print the addressed lines
  [.,.]n, number     Print with line numbers
  [.,.]l, list       Print with non-printing chars as \\NNN octal, ending $
  [.,.+1]j, join     Join the addressed lines into one (default: . and next)
  [.,.]m DEST        Move the addressed lines to after DEST (0 = top)
  [.,.]t DEST        Copy the addressed lines to after DEST (0 = top)
  [.,.]s/re/new/[g]  Substitute: replace regex match in addressed lines
  [.,.]s             Repeat the last substitute (pattern, replacement, flags)
  [.,.]g/re/cmd      Global: run cmd on lines matching regex
  [.,.]v/re/cmd      Inverse global: run cmd on lines NOT matching regex
  [.,.]w [file]      Write addressed lines (default: all) to file
  q, quit            Quit (warns if buffer modified, repeat to force)
  H, help            Show this help

Addresses: 1 (line 1), $ (last), . (current), +N/-N (relative), , (all), ; (current to end)
Regex: . (any char), * (zero or more), ^ $ (anchors), [abc] [^abc] [a-z] (classes)
       \\(...\\) (capture group), \\1-\\9 (backreference)
Replacement: & (whole match), \\1-\\9 (group), \\& (literal &)"@
}

/// Print a command reference.
pub fn run_help() -> (r: Action)
    ensures
        r@ == ActionModel::Print(help_text()),
{
    Action::Print(
        "ved commands (addresses shown in brackets are optional):

  [.]a, append       Append text after the addressed line. End with '.'
  [.]i, insert       Insert text before the addressed line. End with '.'
  [.,.]c, change     Replace the addressed lines with new text. End with '.'
  [.,.]d, delete     Delete the addressed lines
  [.,.]p, print      Print the addressed lines
  [.,.]n, number     Print with line numbers
  [.,.]l, list       Print with non-printing chars as \\NNN octal, ending $
  [.,.+1]j, join     Join the addressed lines into one (default: . and next)
  [.,.]m DEST        Move the addressed lines to after DEST (0 = top)
  [.,.]t DEST        Copy the addressed lines to after DEST (0 = top)
  [.,.]s/re/new/[g]  Substitute: replace regex match in addressed lines
  [.,.]s             Repeat the last substitute (pattern, replacement, flags)
  [.,.]g/re/cmd      Global: run cmd on lines matching regex
  [.,.]v/re/cmd      Inverse global: run cmd on lines NOT matching regex
  [.,.]w [file]      Write addressed lines (default: all) to file
  q, quit            Quit (warns if buffer modified, repeat to force)
  H, help            Show this help

Addresses: 1 (line 1), $ (last), . (current), +N/-N (relative), , (all), ; (current to end)
Regex: . (any char), * (zero or more), ^ $ (anchors), [abc] [^abc] [a-z] (classes)
       \\(...\\) (capture group), \\1-\\9 (backreference)
Replacement: & (whole match), \\1-\\9 (group), \\& (literal &)".to_owned(),
    )
}

} // verus!
