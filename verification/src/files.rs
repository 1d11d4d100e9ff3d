//! The file commands `e`, `r` and `w`. The interpreter decides what to read
//! or write and asks its caller to do the I/O (`Action::Edit`, `Read`,
//! `Write`); the functions here then apply what came back to the buffer.

use vstd::prelude::*;
use vstd::string::{StrSliceExecFns, StringExecFns};
use crate::action::{Action, ActionModel};
use crate::address::{invalid_address_msg, resolve_spec, Address, Spec};
use crate::buffer::{Buffer, BufferView, MAX_LINES};
use crate::enc::Encoding;
use crate::text::{
    decimal_chars, decimal_string, lemma_lines_count, lines_spec, split_lines, str_eq, trim_start,
    trim_start_spec,
};
use vstd::utf8::encode_utf8;

verus! {

/// The warning that a command would throw away unsaved changes.
pub open spec fn unsaved_msg() -> Seq<char> {
    "warning: buffer modified"@
}

pub open spec fn no_filename_msg() -> Seq<char> {
    "no current filename"@
}

/// The file name a command names: its argument without leading whitespace,
/// or the remembered file name when the argument is empty.
pub open spec fn filename_spec(b: BufferView, args: Seq<char>) -> Option<Seq<char>> {
    let t = trim_start_spec(args);
    if t.len() == 0 {
        b.filename
    } else {
        Some(t)
    }
}

fn command_filename(buf: &Buffer, args: &str) -> (r: Option<String>)
    ensures
        match filename_spec(buf@, args@) {
            Some(f) => r matches Some(s) && s@ == f,
            None => r is None,
        },
{
    let t = trim_start(args);
    if t.unicode_len() == 0 {
        match buf.filename() {
            Some(f) => Some(f.to_owned()),
            None => None,
        }
    } else {
        Some(t.to_owned())
    }
}

// ── e ────────────────────────────────────────────────────────

/// `e [file]`: empty the buffer and ask for the file to be loaded. A buffer
/// with unsaved changes is left as it is, with a warning (repeating the
/// command goes ahead, as the loop in `repl` arranges).
pub open spec fn edit_spec(b: BufferView, args: Seq<char>) -> (ActionModel, BufferView) {
    if b.modified {
        (ActionModel::Error(unsaved_msg()), b)
    } else {
        match filename_spec(b, args) {
            None => (ActionModel::Error(no_filename_msg()), b),
            Some(f) => (ActionModel::Edit(f), BufferView { protected: b.protected, ..empty_view() }),
        }
    }
}

pub open spec fn empty_view() -> BufferView {
    BufferView {
        lines: Seq::empty(),
        current: 0,
        modified: false,
        filename: None,
        last_subst: None,
        protected: None,
    }
}

pub fn run_edit(buf: &mut Buffer, args: &str) -> (r: Action)
    ensures
        (r@, final(buf)@) == edit_spec(old(buf)@, args@),
{
    if buf.is_modified() {
        return Action::Error("warning: buffer modified".to_owned());
    }
    let filename = match command_filename(buf, args) {
        Some(f) => f,
        None => {
            return Action::Error("no current filename".to_owned());
        },
    };
    let kept = match buf.protected() {
        Some((f, e)) => Some((f.to_owned(), e)),
        None => None,
    };
    *buf = Buffer::new();
    if let Some((f, e)) = kept {
        buf.protect(f, e);
    }
    proof {
        assert(buf@.lines =~= empty_view().lines);
    }
    Action::Edit(filename)
}

/// The buffer after loading `content` from file `filename`: its lines are
/// appended, the name is remembered and the buffer counts as saved.
pub open spec fn loaded_spec(b: BufferView, filename: Seq<char>, content: Seq<char>) -> BufferView {
    BufferView {
        lines: b.lines + lines_spec(content),
        current: if lines_spec(content).len() == 0 {
            b.current
        } else {
            (b.lines.len() + lines_spec(content).len()) as nat
        },
        modified: false,
        filename: Some(filename),
        ..b
    }
}

/// Load a file's text into the buffer after its last line, remember the
/// file name and mark the buffer saved. Reports the file's size in bytes.
pub fn load_content(buf: &mut Buffer, filename: String, content: &str) -> (r: Action)
    requires
        old(buf)@.lines.len() + content@.len() <= MAX_LINES,
    ensures
        final(buf)@ == loaded_spec(old(buf)@, filename@, content@),
        r@ == ActionModel::Print(decimal_chars(encode_utf8(content@).len())),
{
    let bytes = content.as_bytes().len();
    let lines = split_lines(content);
    proof {
        lemma_lines_count(content@);
    }
    let ghost b0 = buf@;
    let ghost ls = lines_spec(content@);
    let mut i: usize = 0;
    while i < lines.len()
        invariant
            i <= lines@.len(),
            lines@.map_values(|l: String| l@) == ls,
            b0.lines.len() + ls.len() <= MAX_LINES,
            buf@.lines == b0.lines + ls.take(i as int),
            buf@.filename == b0.filename,
            buf@.last_subst == b0.last_subst,
            buf@.protected == b0.protected,
            i == 0 ==> buf@ == b0,
            i > 0 ==> buf@.current == b0.lines.len() + i && buf@.modified,
        decreases lines@.len() - i,
    {
        let at = buf.len();
        buf.append_after(at, lines[i].clone());
        proof {
            assert(buf@.lines =~= b0.lines + ls.take(i + 1));
        }
        i += 1;
    }
    proof {
        assert(ls.take(i as int) =~= ls);
    }
    buf.set_filename(filename);
    buf.mark_saved();
    proof {
        assert(buf@ == loaded_spec(b0, filename@, content@));
    }
    Action::Print(decimal_string(bytes))
}

/// A file that does not exist yet: remember its name (a later `w` creates
/// it) and mark the buffer saved.
pub fn new_file(buf: &mut Buffer, filename: String) -> (r: Action)
    ensures
        final(buf)@ == (BufferView { filename: Some(filename@), modified: false, ..old(buf)@ }),
        r@ == ActionModel::Print(filename@ + ": new file"@),
{
    let mut msg = filename.as_str().to_owned();
    msg.append(": new file");
    buf.set_filename(filename);
    buf.mark_saved();
    Action::Print(msg)
}

// ── r ────────────────────────────────────────────────────────

/// `r [file]`: where to insert the file's lines (after the addressed line,
/// default the last; 0 for an empty buffer).
pub open spec fn read_spec(sp: Spec, b: BufferView, args: Seq<char>) -> (ActionModel, BufferView) {
    match filename_spec(b, args) {
        None => (ActionModel::Error(no_filename_msg()), b),
        Some(f) => if b.lines.len() == 0 {
            (ActionModel::Read(0, f), b)
        } else if sp.start is None && sp.end is None {
            (ActionModel::Read(b.lines.len(), f), b)
        } else {
            match resolve_spec(sp.start, sp.end, b, (Address::Current, Address::Current)) {
                None => (ActionModel::Error(invalid_address_msg()), b),
                Some((_, e)) => (ActionModel::Read(e, f), b),
            }
        },
    }
}

pub fn run_read(spec: &Spec, buf: &mut Buffer, args: &str) -> (r: Action)
    requires
        spec.wf(),
    ensures
        (r@, final(buf)@) == read_spec(*spec, old(buf)@, args@),
{
    let filename = match command_filename(buf, args) {
        Some(f) => f,
        None => {
            return Action::Error("no current filename".to_owned());
        },
    };
    let after = if buf.is_empty() {
        0
    } else if spec.is_empty() {
        buf.len()
    } else {
        match spec.resolve(buf) {
            Ok(r) => r.end,
            Err(e) => {
                return Action::Error(e);
            },
        }
    };
    Action::Read(after, filename)
}

/// The buffer after inserting `content`'s lines after line `after`: the last
/// inserted line is current, and the file name is remembered when the buffer
/// had none.
pub open spec fn read_into_spec(b: BufferView, after: int, filename: Seq<char>, content: Seq<char>) -> BufferView {
    let ls = lines_spec(content);
    BufferView {
        lines: b.lines.take(after) + ls + b.lines.skip(after),
        current: if ls.len() == 0 {
            b.current
        } else {
            (after + ls.len()) as nat
        },
        modified: b.modified || ls.len() > 0,
        filename: if b.filename is None {
            Some(filename)
        } else {
            b.filename
        },
        ..b
    }
}

/// Insert the text read for `r` after line `after`. Reports its size in
/// bytes.
pub fn read_content(buf: &mut Buffer, after: usize, filename: String, content: &str) -> (r: Action)
    requires
        after <= old(buf)@.lines.len(),
        old(buf)@.lines.len() + content@.len() <= MAX_LINES,
    ensures
        final(buf)@ == read_into_spec(old(buf)@, after as int, filename@, content@),
        r@ == ActionModel::Print(decimal_chars(encode_utf8(content@).len())),
{
    let bytes = content.as_bytes().len();
    let lines = split_lines(content);
    proof {
        lemma_lines_count(content@);
    }
    let ghost b0 = buf@;
    let ghost ls = lines_spec(content@);
    let mut i: usize = 0;
    while i < lines.len()
        invariant
            i <= lines@.len(),
            after <= b0.lines.len(),
            lines@.map_values(|l: String| l@) == ls,
            b0.lines.len() + ls.len() <= MAX_LINES,
            buf@.lines == b0.lines.take(after as int) + ls.take(i as int) + b0.lines.skip(
                after as int,
            ),
            buf@.filename == b0.filename,
            buf@.last_subst == b0.last_subst,
            buf@.protected == b0.protected,
            i == 0 ==> buf@ == b0,
            i > 0 ==> buf@.current == after + i && buf@.modified,
        decreases lines@.len() - i,
    {
        buf.append_after(after + i, lines[i].clone());
        proof {
            assert(buf@.lines =~= b0.lines.take(after as int) + ls.take(i + 1) + b0.lines.skip(
                after as int,
            ));
        }
        i += 1;
    }
    proof {
        assert(ls.take(i as int) =~= ls);
        if i == 0 {
            assert(b0.lines.take(after as int) + ls + b0.lines.skip(after as int) =~= b0.lines);
        }
    }
    if buf.filename().is_none() {
        buf.set_filename(filename);
    }
    Action::Print(decimal_string(bytes))
}

// ── w ────────────────────────────────────────────────────────

/// Lines `s..=e`, each followed by a newline.
pub open spec fn write_text(lines: Seq<Seq<char>>, s: int, e: int) -> Seq<char>
    decreases e - s + 1,
{
    if e < s {
        Seq::empty()
    } else {
        write_text(lines, s, e - 1) + lines[e - 1] + "\n"@
    }
}

/// The encoding that file `f` looked like, when it is the protected file.
pub open spec fn protecting(b: BufferView, f: Seq<char>) -> Option<Encoding> {
    match b.protected {
        Some((pf, e)) => if pf == f {
            Some(e)
        } else {
            None
        },
        None => None,
    }
}

pub open spec fn protected_msg(f: Seq<char>, e: Encoding) -> Seq<char> {
    "refusing to overwrite "@ + f + ": it appears to be "@ + e.display_name_spec()
        + " encoded; write to a new file name"@
}

/// `w [file]`: what to write (the addressed lines, default the whole
/// buffer; an empty buffer with no address writes nothing) and whether it is
/// the whole buffer. The file that looked like another encoding when it was
/// opened is never written.
pub open spec fn write_spec(sp: Spec, b: BufferView, args: Seq<char>) -> (ActionModel, BufferView) {
    match filename_spec(b, args) {
        None => (ActionModel::Error(no_filename_msg()), b),
        Some(f) => if protecting(b, f) is Some {
            (ActionModel::Error(protected_msg(f, protecting(b, f).unwrap())), b)
        } else if b.lines.len() == 0 && sp.start is None && sp.end is None {
            (ActionModel::Write(f, Seq::empty(), true), b)
        } else {
            match resolve_spec(sp.start, sp.end, b, (Address::Number(1), Address::Last)) {
                None => (ActionModel::Error(invalid_address_msg()), b),
                Some((s, e)) => (
                    ActionModel::Write(
                        f,
                        write_text(b.lines, s as int, e as int),
                        s == 1 && e == b.lines.len(),
                    ),
                    b,
                ),
            }
        },
    }
}

pub fn run_write(spec: &Spec, buf: &mut Buffer, args: &str) -> (r: Action)
    requires
        spec.wf(),
    ensures
        (r@, final(buf)@) == write_spec(*spec, old(buf)@, args@),
{
    let filename = match command_filename(buf, args) {
        Some(f) => f,
        None => {
            return Action::Error("no current filename".to_owned());
        },
    };
    if let Some((pf, e)) = buf.protected() {
        if str_eq(pf, filename.as_str()) {
            let mut msg = "refusing to overwrite ".to_owned();
            msg.append(filename.as_str());
            msg.append(": it appears to be ");
            msg.append(e.display_name().as_str());
            msg.append(" encoded; write to a new file name");
            return Action::Error(msg);
        }
    }
    if buf.is_empty() && spec.is_empty() {
        return Action::Write(filename, String::new(), true);
    }
    let range = match spec.resolve_or_whole(buf) {
        Ok(r) => r,
        Err(e) => {
            return Action::Error(e);
        },
    };
    let ghost lines = buf@.lines;
    let mut s = String::new();
    let mut n = range.start;
    loop
        invariant_except_break
            s@ == write_text(lines, range.start as int, n - 1),
        invariant
            1 <= range.start <= n <= range.end,
            range.end <= lines.len(),
            lines == buf@.lines,
        ensures
            s@ == write_text(lines, range.start as int, range.end as int),
        decreases range.end - n,
    {
        match buf.line(n) {
            Some(line) => {
                s.append(line);
                s.append("\n");
            },
            None => {},
        }
        if n == range.end {
            break;
        }
        n += 1;
    }
    let whole = range.start == 1 && range.end == buf.len();
    Action::Write(filename, s, whole)
}

/// After `content` was written to `filename`: remember the file name, mark
/// the buffer saved when the whole buffer was written, and report the number
/// of bytes written, the length of `content` in UTF-8.
pub fn finish_write(buf: &mut Buffer, filename: String, content: &str, whole: bool) -> (r: Action)
    ensures
        final(buf)@ == (BufferView {
            filename: Some(filename@),
            modified: old(buf)@.modified && !whole,
            ..old(buf)@
        }),
        r@ == ActionModel::Print(
            "wrote "@ + decimal_chars(encode_utf8(content@).len()) + " bytes to "@ + filename@,
        ),
{
    let bytes = content.as_bytes().len();
    let mut msg = "wrote ".to_owned();
    msg.append(decimal_string(bytes).as_str());
    msg.append(" bytes to ");
    msg.append(filename.as_str());
    buf.set_filename(filename);
    if whole {
        buf.mark_saved();
    }
    Action::Print(msg)
}

} // verus!
