//! The editor's read-eval-print loop as a state machine: the caller reads a
//! line, hands it to `Session::step`, and performs what comes back (print,
//! exit, or file I/O). Also the command-line arguments.

use vstd::prelude::*;
use vstd::string::{StrSliceExecFns, StringExecFns};
use crate::action::{Action, ActionModel};
use crate::buffer::{appended, Buffer, BufferView, MAX_LINES};
use crate::command::{dispatch, dispatch_spec};
use crate::files::unsaved_msg;
use crate::text::str_eq;

verus! {

// ── Line endings ─────────────────────────────────────────────

/// How many `c` end `s`.
pub open spec fn trailing(s: Seq<char>, c: char) -> nat
    decreases s.len(),
{
    if s.len() > 0 && s.last() == c {
        1 + trailing(s.drop_last(), c)
    } else {
        0
    }
}

pub proof fn lemma_trailing(s: Seq<char>, c: char)
    ensures
        trailing(s, c) <= s.len(),
        forall|i: int| s.len() - trailing(s, c) <= i < s.len() ==> #[trigger] s[i] == c,
        trailing(s, c) < s.len() ==> s[s.len() - trailing(s, c) - 1] != c,
    decreases s.len(),
{
    if s.len() > 0 && s.last() == c {
        lemma_trailing(s.drop_last(), c);
        assert forall|i: int| s.len() - trailing(s, c) <= i < s.len() implies #[trigger] s[i] == c by {
            if i < s.len() - 1 {
                assert(s[i] == s.drop_last()[i]);
            }
        }
        if trailing(s, c) < s.len() {
            assert(s[s.len() - trailing(s, c) - 1] == s.drop_last()[s.drop_last().len() - trailing(
                s.drop_last(),
                c,
            ) - 1]);
        }
    }
}

/// `s` without its trailing `c`s.
pub open spec fn trim_end_spec(s: Seq<char>, c: char) -> Seq<char> {
    s.take(s.len() - trailing(s, c))
}

/// A line as typed: without its trailing newlines, then without the
/// carriage returns before them. Trailing spaces are kept.
pub open spec fn trim_line_spec(s: Seq<char>) -> Seq<char> {
    trim_end_spec(trim_end_spec(s, '\n'), '\r')
}

fn trim_end_char(s: &str, c: char) -> (r: &str)
    ensures
        r@ == trim_end_spec(s@, c),
{
    proof {
        lemma_trailing(s@, c);
    }
    let n = s.unicode_len();
    let mut k = n;
    while k > 0 && s.get_char(k - 1) == c
        invariant
            k <= n,
            n == s@.len(),
            s@.len() - trailing(s@, c) <= k,
            forall|i: int| s@.len() - trailing(s@, c) <= i < s@.len() ==> #[trigger] s@[i] == c,
            trailing(s@, c) < s@.len() ==> s@[s@.len() - trailing(s@, c) - 1] != c,
        decreases k,
    {
        k -= 1;
    }
    s.substring_char(0, k)
}

/// Strip just the line terminator, not other trailing whitespace.
pub fn trim_line(line: &str) -> (r: &str)
    ensures
        r@ == trim_line_spec(line@),
{
    let t = trim_end_char(line, '\n');
    trim_end_char(t, '\r')
}

// ── The loop ─────────────────────────────────────────────────

/// The loop's state: in input mode every line goes into the buffer until a
/// lone `.`; `warned` records that the last command was a `q` or `e` refused
/// because of unsaved changes.
pub struct Session {
    pub input_mode: bool,
    pub warned: bool,
}

/// What the caller does after one line.
pub enum Step {
    /// Print the text, if any, and read the next line.
    Output(Option<String>),
    /// Leave the editor successfully.
    Exit,
    /// Do the file I/O that the action asks for, then print the outcome.
    Io(Action),
}

pub enum StepModel {
    Output(Option<Seq<char>>),
    Exit,
    Io(ActionModel),
}

impl View for Step {
    type V = StepModel;

    open spec fn view(&self) -> StepModel {
        match self {
            Step::Output(o) => StepModel::Output(
                match o {
                    Some(s) => Some(s@),
                    None => None,
                },
            ),
            Step::Exit => StepModel::Exit,
            Step::Io(a) => StepModel::Io(a@),
        }
    }
}

pub open spec fn modified_warning() -> Seq<char> {
    "? warning: buffer modified"@
}

/// How a command's action is shown: its message, errors as `? message`.
pub open spec fn shown(a: ActionModel) -> Option<Seq<char>> {
    match a {
        ActionModel::Print(m) => Some(m),
        ActionModel::Error(m) => Some("? "@ + m),
        _ => None,
    }
}

/// One line read: the session after it, the buffer after it, and what the
/// caller is to do.
pub open spec fn step_spec(input_mode: bool, warned: bool, b: BufferView, line: Seq<char>) -> (
    bool,
    bool,
    BufferView,
    StepModel,
) {
    let t = trim_line_spec(line);
    if input_mode {
        if t == "."@ {
            (false, warned, b, StepModel::Output(None))
        } else {
            (true, warned, appended(b, b.current as int, t), StepModel::Output(None))
        }
    } else {
        let (a0, b0) = dispatch_spec(t, b);
        let (a, b2) = if warned && a0 == ActionModel::Error(unsaved_msg()) && b0.lines.len()
            < MAX_LINES {
            dispatch_spec(t, BufferView { modified: false, ..b0 })
        } else {
            (a0, b0)
        };
        match a {
            ActionModel::Quit => if b2.modified && !warned {
                (false, true, b2, StepModel::Output(Some(modified_warning())))
            } else {
                (false, warned, b2, StepModel::Exit)
            },
            ActionModel::ForceQuit => (false, warned, b2, StepModel::Exit),
            ActionModel::EnterInputMode => (true, false, b2, StepModel::Output(None)),
            ActionModel::Done => (false, false, b2, StepModel::Output(None)),
            ActionModel::Print(m) => (false, false, b2, StepModel::Output(Some(m))),
            ActionModel::Error(m) => (
                false,
                m == unsaved_msg(),
                b2,
                StepModel::Output(Some("? "@ + m)),
            ),
            other => (false, false, b2, StepModel::Io(other)),
        }
    }
}

impl Session {
    pub fn new() -> (s: Session)
        ensures
            !s.input_mode,
            !s.warned,
    {
        Session { input_mode: false, warned: false }
    }

    /// The prompt shows only in command mode, never in input mode.
    pub fn shows_prompt(&self) -> (b: bool)
        ensures
            b == !self.input_mode,
    {
        !self.input_mode
    }

    /// Handle one line read from the user.
    pub fn step(&mut self, buf: &mut Buffer, line: &str) -> (r: Step)
        requires
            old(buf)@.lines.len() < MAX_LINES,
            old(self).input_mode ==> old(buf)@.current <= old(buf)@.lines.len(),
        ensures
            (final(self).input_mode, final(self).warned, final(buf)@, r@) == step_spec(
                old(self).input_mode,
                old(self).warned,
                old(buf)@,
                line@,
            ),
    {
        let trimmed = trim_line(line);
        if self.input_mode {
            if str_eq(trimmed, ".") {
                self.input_mode = false;
            } else {
                let at = buf.current();
                buf.append_after(at, trimmed.to_owned());
            }
            return Step::Output(None);
        }
        let mut act = dispatch(trimmed, buf);
        if self.warned && buf.len() < MAX_LINES {
            if let Action::Error(m) = &act {
                if str_eq(m.as_str(), "warning: buffer modified") {
                    buf.mark_saved();
                    act = dispatch(trimmed, buf);
                }
            }
        }
        match act {
            Action::Quit => {
                if buf.is_modified() && !self.warned {
                    self.warned = true;
                    Step::Output(Some("? warning: buffer modified".to_owned()))
                } else {
                    Step::Exit
                }
            },
            Action::ForceQuit => Step::Exit,
            Action::EnterInputMode => {
                self.input_mode = true;
                self.warned = false;
                Step::Output(None)
            },
            Action::Done => {
                self.warned = false;
                Step::Output(None)
            },
            Action::Print(msg) => {
                self.warned = false;
                Step::Output(Some(msg))
            },
            Action::Error(msg) => {
                self.warned = str_eq(msg.as_str(), "warning: buffer modified");
                let mut out = "? ".to_owned();
                out.append(msg.as_str());
                Step::Output(Some(out))
            },
            other => {
                self.warned = false;
                Step::Io(other)
            },
        }
    }
}

/// The text to print for the outcome of a command: its message, errors as
/// `? message`, nothing otherwise.
pub fn show(a: &Action) -> (r: Option<String>)
    ensures
        match shown(a@) {
            Some(m) => r matches Some(s) && s@ == m,
            None => r is None,
        },
{
    match a {
        Action::Print(m) => Some(m.as_str().to_owned()),
        Action::Error(m) => {
            let mut out = "? ".to_owned();
            out.append(m.as_str());
            Some(out)
        },
        _ => None,
    }
}

} // verus!
