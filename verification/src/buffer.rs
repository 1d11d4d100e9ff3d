//! The text buffer that ved edits.
//!
//! Lines are 1-indexed externally, matching ed's address syntax: line 1 is
//! the first line, `$` is the last, and 0 is a sentinel meaning "before the
//! first line". `current` is ed's current line; `modified` flips on every
//! mutation and clears on a whole-buffer write; `filename` remembers the last
//! file name used; `last_subst` remembers the last substitute command so a
//! bare `s` can repeat it; `protected` names a file that looked like another
//! encoding than UTF-8 when it was opened, which `w` must not overwrite.

use vstd::prelude::*;
use crate::enc::Encoding;

verus! {

/// The mathematical model of a buffer.
pub struct BufferView {
    pub lines: Seq<Seq<char>>,
    pub current: nat,
    pub modified: bool,
    pub filename: Option<Seq<char>>,
    pub last_subst: Option<(Seq<u8>, Seq<u8>, bool)>,
    pub protected: Option<(Seq<char>, Encoding)>,
}

pub struct Buffer {
    lines: Vec<String>,
    current: usize,
    modified: bool,
    filename: Option<String>,
    last_subst: Option<(Vec<u8>, Vec<u8>, bool)>,
    protected: Option<(String, Encoding)>,
}

pub open spec fn string_views(v: Seq<String>) -> Seq<Seq<char>> {
    v.map_values(|s: String| s@)
}

pub open spec fn opt_string_view(o: Option<String>) -> Option<Seq<char>> {
    match o {
        Some(s) => Some(s@),
        None => None,
    }
}

pub open spec fn protected_view(o: Option<(String, Encoding)>) -> Option<(Seq<char>, Encoding)> {
    match o {
        Some(t) => Some((t.0@, t.1)),
        None => None,
    }
}

pub open spec fn subst_view(o: Option<(Vec<u8>, Vec<u8>, bool)>) -> Option<(Seq<u8>, Seq<u8>, bool)> {
    match o {
        Some(t) => Some((t.0@, t.1@, t.2)),
        None => None,
    }
}

/// The lines left after removing the 1-indexed inclusive range `start..=end`.
pub open spec fn lines_without(lines: Seq<Seq<char>>, start: int, end: int) -> Seq<Seq<char>> {
    lines.subrange(0, start - 1) + lines.subrange(end, lines.len() as int)
}

/// Where the current line lands after deleting `start..=end`: the line after
/// the deleted range, else the new last line, else 0 for an empty buffer.
pub open spec fn current_after_delete(new_len: int, start: int) -> nat {
    if new_len == 0 {
        0
    } else if start <= new_len {
        start as nat
    } else {
        new_len as nat
    }
}

/// The most lines a buffer is given: far beyond any memory, and small enough
/// that a command copying every line cannot overflow a line count.
pub const MAX_LINES: usize = usize::MAX / 4;

/// `b` after deleting lines `start..=end`.
pub open spec fn deleted(b: BufferView, start: int, end: int) -> BufferView {
    BufferView {
        lines: lines_without(b.lines, start, end),
        current: current_after_delete(b.lines.len() - (end - start + 1), start),
        modified: true,
        ..b
    }
}

/// `b` after inserting `line` after line `after`; the new line is current.
pub open spec fn appended(b: BufferView, after: int, line: Seq<char>) -> BufferView {
    BufferView {
        lines: b.lines.insert(after, line),
        current: (after + 1) as nat,
        modified: true,
        ..b
    }
}

/// `b` with line `n` replaced by `content`.
pub open spec fn replaced(b: BufferView, n: int, content: Seq<char>) -> BufferView {
    BufferView { lines: b.lines.update(n - 1, content), modified: true, ..b }
}

/// `b` with `n` as its current line.
pub open spec fn with_current(b: BufferView, n: int) -> BufferView {
    BufferView { current: n as nat, ..b }
}

impl View for Buffer {
    type V = BufferView;

    closed spec fn view(&self) -> BufferView {
        BufferView {
            lines: string_views(self.lines@),
            current: self.current as nat,
            modified: self.modified,
            filename: opt_string_view(self.filename),
            last_subst: subst_view(self.last_subst),
            protected: protected_view(self.protected),
        }
    }
}

impl Buffer {
    pub fn new() -> (b: Self)
        ensures
            b@.lines == Seq::<Seq<char>>::empty(),
            b@.current == 0,
            !b@.modified,
            b@.filename is None,
            b@.last_subst is None,
            b@.protected is None,
    {
        let b = Buffer {
            lines: Vec::new(),
            current: 0,
            modified: false,
            filename: None,
            last_subst: None,
            protected: None,
        };
        proof {
            assert(b@.lines =~= Seq::<Seq<char>>::empty());
        }
        b
    }

    pub fn len(&self) -> (n: usize)
        ensures
            n == self@.lines.len(),
    {
        self.lines.len()
    }

    pub fn is_empty(&self) -> (b: bool)
        ensures
            b == (self@.lines.len() == 0),
    {
        self.lines.len() == 0
    }

    pub fn current(&self) -> (n: usize)
        ensures
            n == self@.current,
    {
        self.current
    }

    /// Set the current line, leaving everything else unchanged.
    pub fn set_current(&mut self, n: usize)
        ensures
            final(self)@ == with_current(old(self)@, n as int),
    {
        self.current = n;
    }

    /// Insert `line` after 1-indexed position `after` (0 inserts at the very
    /// start). The new line becomes current and the buffer is modified.
    pub fn append_after(&mut self, after: usize, line: String)
        requires
            after <= old(self)@.lines.len(),
            old(self)@.lines.len() < usize::MAX,
        ensures
            final(self)@ == appended(old(self)@, after as int, line@),
    {
        let ghost old_lines = self.lines@;
        self.lines.insert(after, line);
        self.current = after + 1;
        self.modified = true;
        proof {
            assert(string_views(self.lines@) =~= string_views(old_lines).insert(after as int, line@));
        }
    }

    /// Fetch a line by 1-indexed position, `None` when out of range.
    pub fn line(&self, n: usize) -> (r: Option<&str>)
        ensures
            1 <= n <= self@.lines.len() ==> (r matches Some(s) && s@ == self@.lines[n - 1]),
            !(1 <= n <= self@.lines.len()) ==> r is None,
    {
        if n == 0 || n > self.lines.len() {
            None
        } else {
            Some(self.lines[n - 1].as_str())
        }
    }

    pub fn is_modified(&self) -> (b: bool)
        ensures
            b == self@.modified,
    {
        self.modified
    }

    /// Clear the modified flag after a whole-buffer write.
    pub fn mark_saved(&mut self)
        ensures
            final(self)@ == (BufferView { modified: false, ..old(self)@ }),
    {
        self.modified = false;
    }

    pub fn filename(&self) -> (r: Option<&str>)
        ensures
            match r {
                Some(s) => self@.filename == Some(s@),
                None => self@.filename is None,
            },
    {
        match &self.filename {
            Some(f) => Some(f.as_str()),
            None => None,
        }
    }

    pub fn set_filename(&mut self, name: String)
        ensures
            final(self)@ == (BufferView { filename: Some(name@), ..old(self)@ }),
    {
        self.filename = Some(name);
    }

    /// The file that `w` must not overwrite, and the encoding it looked like.
    pub fn protected(&self) -> (r: Option<(&str, Encoding)>)
        ensures
            match r {
                Some(t) => self@.protected == Some((t.0@, t.1)),
                None => self@.protected is None,
            },
    {
        match &self.protected {
            Some(t) => Some((t.0.as_str(), t.1)),
            None => None,
        }
    }

    /// Keep `w` from overwriting `name`, a file that looks like `encoding`
    /// text: saving the buffer as UTF-8 would corrupt it.
    pub fn protect(&mut self, name: String, encoding: Encoding)
        ensures
            final(self)@ == (BufferView { protected: Some((name@, encoding)), ..old(self)@ }),
    {
        self.protected = Some((name, encoding));
    }

    /// The last substitute command: pattern, replacement and global flag.
    pub fn last_subst(&self) -> (r: Option<&(Vec<u8>, Vec<u8>, bool)>)
        ensures
            match r {
                Some(t) => self@.last_subst == Some((t.0@, t.1@, t.2)),
                None => self@.last_subst is None,
            },
    {
        self.last_subst.as_ref()
    }

    /// Remember a substitute command so a bare `s` can repeat it.
    pub fn set_last_subst(&mut self, pattern: Vec<u8>, replacement: Vec<u8>, global: bool)
        ensures
            final(self)@ == (BufferView {
                last_subst: Some((pattern@, replacement@, global)),
                ..old(self)@
            }),
    {
        self.last_subst = Some((pattern, replacement, global));
    }

    /// Replace the content of 1-indexed line `n` and mark the buffer modified.
    pub fn replace_line(&mut self, n: usize, content: String)
        requires
            1 <= n <= old(self)@.lines.len(),
        ensures
            final(self)@ == replaced(old(self)@, n as int, content@),
    {
        let ghost old_lines = self.lines@;
        self.lines.set(n - 1, content);
        self.modified = true;
        proof {
            assert(string_views(self.lines@) =~= string_views(old_lines).update(n - 1, content@));
        }
    }

    /// Delete lines `start..=end` (1-indexed, inclusive; `start == end + 1`
    /// deletes nothing). The current line becomes the line after the deleted
    /// range, or the new last line, or 0 if the buffer is now empty.
    pub fn delete_range(&mut self, start: usize, end: usize)
        requires
            1 <= start,
            start - 1 <= end <= old(self)@.lines.len(),
        ensures
            final(self)@ == deleted(old(self)@, start as int, end as int),
    {
        let ghost old_lines = self.lines@;
        let mut tail = self.lines.split_off(end);
        self.lines.truncate(start - 1);
        self.lines.append(&mut tail);
        self.modified = true;
        proof {
            assert(self.lines@ =~= old_lines.subrange(0, start - 1) + old_lines.subrange(
                end as int,
                old_lines.len() as int,
            ));
            assert(string_views(self.lines@) =~= lines_without(
                string_views(old_lines),
                start as int,
                end as int,
            ));
        }
        if self.lines.len() == 0 {
            self.current = 0;
        } else if start <= self.lines.len() {
            self.current = start;
        } else {
            self.current = self.lines.len();
        }
    }
}

} // verus!
