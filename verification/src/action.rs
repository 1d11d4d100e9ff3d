//! What the interpreter asks of its caller after one command line.

use vstd::prelude::*;
use crate::command::as_ints;

verus! {

/// What the REPL should do after handling one input line. `Edit`, `Read`
/// and `Write` ask the caller to do file I/O and hand the result back.
pub enum Action {
    Quit,
    ForceQuit,
    EnterInputMode,
    Done,
    Print(String),
    Error(String),
    /// Load the named file into the (already emptied) buffer.
    Edit(String),
    /// Read the named file and insert its lines after the given line.
    Read(usize, String),
    /// Write the content to the named file; the flag says whether it is the
    /// whole buffer.
    Write(String, String, bool),
    /// A global command reached file I/O on one of its lines: do the
    /// request, then hand its outcome to `resume_global` with the stack of
    /// interrupted global commands (outermost first).
    Suspended(Request, Vec<Resume>),
}

/// File I/O that a command inside a global command asks for; the forms are
/// those of `Action::Edit`, `Action::Read` and `Action::Write`.
pub enum Request {
    Edit(String),
    Read(usize, String),
    Write(String, String, bool),
}

/// Where an interrupted global command goes on: the command it runs, the
/// marked lines, the index of the next mark, and what it has printed so far.
pub struct Resume {
    pub cmd: String,
    pub marks: Vec<usize>,
    pub next: usize,
    pub output: String,
}

pub enum RequestModel {
    Edit(Seq<char>),
    Read(nat, Seq<char>),
    Write(Seq<char>, Seq<char>, bool),
}

pub struct ResumeModel {
    pub cmd: Seq<char>,
    pub marks: Seq<int>,
    pub next: int,
    pub output: Seq<char>,
}

pub enum ActionModel {
    Quit,
    ForceQuit,
    EnterInputMode,
    Done,
    Print(Seq<char>),
    Error(Seq<char>),
    Edit(Seq<char>),
    Read(nat, Seq<char>),
    Write(Seq<char>, Seq<char>, bool),
    Suspended(RequestModel, Seq<ResumeModel>),
}

impl View for Request {
    type V = RequestModel;

    open spec fn view(&self) -> RequestModel {
        match self {
            Request::Edit(f) => RequestModel::Edit(f@),
            Request::Read(n, f) => RequestModel::Read(*n as nat, f@),
            Request::Write(f, c, w) => RequestModel::Write(f@, c@, *w),
        }
    }
}

impl View for Resume {
    type V = ResumeModel;

    open spec fn view(&self) -> ResumeModel {
        ResumeModel {
            cmd: self.cmd@,
            marks: as_ints(self.marks@),
            next: self.next as int,
            output: self.output@,
        }
    }
}

/// The models of a stack of interrupted global commands.
pub open spec fn resume_views(v: Seq<Resume>) -> Seq<ResumeModel> {
    v.map_values(|r: Resume| r@)
}

impl View for Action {
    type V = ActionModel;

    open spec fn view(&self) -> ActionModel {
        match self {
            Action::Quit => ActionModel::Quit,
            Action::ForceQuit => ActionModel::ForceQuit,
            Action::EnterInputMode => ActionModel::EnterInputMode,
            Action::Done => ActionModel::Done,
            Action::Print(s) => ActionModel::Print(s@),
            Action::Error(s) => ActionModel::Error(s@),
            Action::Edit(f) => ActionModel::Edit(f@),
            Action::Read(n, f) => ActionModel::Read(*n as nat, f@),
            Action::Write(f, c, w) => ActionModel::Write(f@, c@, *w),
            Action::Suspended(q, st) => ActionModel::Suspended(q@, resume_views(st@)),
        }
    }
}

} // verus!
