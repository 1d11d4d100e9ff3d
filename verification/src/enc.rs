//! Encoding sniff: recognise the byte signatures of non-UTF-8 input so the
//! user can be warned before a cryptic read error. Detection is narrow:
//! byte-perfect signatures in the first 4 KiB only, no heuristics.

use vstd::prelude::*;
use vstd::string::{StrSliceExecFns, StringExecFns};

verus! {

#[derive(Debug, Clone, Copy, PartialEq, Eq, Structural)]
pub enum Encoding {
    Utf7,
    Utf16Le,
    Utf16Be,
}

/// How much of a file the sniff looks at.
pub const SCAN_WINDOW: usize = 4096;

/// The UTF-7 escape for `"` (`+ACI-`), the mark of UTF-7 text.
pub open spec fn utf7_marker() -> Seq<u8> {
    seq![43u8, 65u8, 67u8, 73u8, 45u8]
}

impl Encoding {
    pub open spec fn display_name_spec(self) -> Seq<char> {
        match self {
            Encoding::Utf7 => "UTF-7"@,
            Encoding::Utf16Le => "UTF-16 little-endian"@,
            Encoding::Utf16Be => "UTF-16 big-endian"@,
        }
    }

    pub open spec fn iconv_name_spec(self) -> Seq<char> {
        match self {
            Encoding::Utf7 => "UTF-7"@,
            Encoding::Utf16Le => "UTF-16LE"@,
            Encoding::Utf16Be => "UTF-16BE"@,
        }
    }

    /// The name shown to the user, e.g. "UTF-16 little-endian".
    pub fn display_name(&self) -> (s: String)
        ensures
            s@ == self.display_name_spec(),
    {
        match self {
            Encoding::Utf7 => "UTF-7".to_owned(),
            Encoding::Utf16Le => "UTF-16 little-endian".to_owned(),
            Encoding::Utf16Be => "UTF-16 big-endian".to_owned(),
        }
    }

    /// The name `iconv -f` takes for this encoding.
    pub fn iconv_name(&self) -> (s: String)
        ensures
            s@ == self.iconv_name_spec(),
    {
        match self {
            Encoding::Utf7 => "UTF-7".to_owned(),
            Encoding::Utf16Le => "UTF-16LE".to_owned(),
            Encoding::Utf16Be => "UTF-16BE".to_owned(),
        }
    }
}

/// The first line of the warning about a file that looks like `e` text.
pub open spec fn warning_line(path: Seq<char>, e: Encoding) -> Seq<char> {
    "warning: "@ + path + " appears to be "@ + e.display_name_spec() + " encoded."@
}

/// The second line: the `iconv` command that converts the file to UTF-8 in
/// `converted`.
pub open spec fn hint_line(path: Seq<char>, e: Encoding, converted: Seq<char>) -> Seq<char> {
    "hint: iconv -f "@ + e.iconv_name_spec() + " -t UTF-8 "@ + path + " > "@ + converted
}

/// The index of the last `c` in `s`, or -1 when there is none.
pub open spec fn last_index(s: Seq<char>, c: char) -> int
    decreases s.len(),
{
    if s.len() == 0 {
        -1
    } else if s.last() == c {
        s.len() - 1
    } else {
        last_index(s.drop_last(), c)
    }
}

/// `last_index` is the largest index holding `c`.
pub proof fn lemma_last_index(s: Seq<char>, c: char, k: int)
    requires
        -1 <= k < s.len(),
        k >= 0 ==> s[k] == c,
        forall|m: int| k < m < s.len() ==> s[m] != c,
    ensures
        last_index(s, c) == k,
    decreases s.len(),
{
    if s.len() > 0 && s.last() != c {
        assert forall|m: int| k < m < s.drop_last().len() implies s.drop_last()[m] != c by {
            assert(s.drop_last()[m] == s[m]);
        }
        if k >= 0 {
            assert(s.drop_last()[k] == s[k]);
        }
        lemma_last_index(s.drop_last(), c, k);
    }
}

/// The name of the converted copy of the file `path`: `.utf8` goes before
/// the extension of the file name (the text after the last `/`), or at the
/// end when the file name has no extension. A file name's extension follows
/// its last `.`, unless that `.` is the name's first character.
pub open spec fn utf8_sibling_spec(path: Seq<char>) -> Seq<char> {
    let start = last_index(path, '/') + 1;
    let d = last_index(path.skip(start), '.');
    if d > 0 {
        path.take(start + d) + ".utf8"@ + path.skip(start + d)
    } else {
        path + ".utf8"@
    }
}

/// The name of the converted copy of `path`: `Roster.csv` becomes
/// `Roster.utf8.csv`, and `notes` becomes `notes.utf8`.
pub fn utf8_sibling_path(path: &str) -> (r: String)
    ensures
        r@ == utf8_sibling_spec(path@),
{
    let ghost p = path@;
    let n = path.unicode_len();
    let mut i = n;
    while i > 0 && path.get_char(i - 1) != '/'
        invariant
            i <= n,
            n == p.len(),
            p == path@,
            forall|m: int| i <= m < n ==> p[m] != '/',
        decreases i,
    {
        i -= 1;
    }
    proof {
        lemma_last_index(p, '/', i - 1);
    }
    let mut j = n;
    while j > i && path.get_char(j - 1) != '.'
        invariant
            i <= j <= n,
            n == p.len(),
            p == path@,
            forall|m: int| j <= m < n ==> p[m] != '.',
        decreases j,
    {
        j -= 1;
    }
    let ghost name = p.skip(i as int);
    proof {
        assert forall|m: int| j - 1 - i < m < name.len() implies name[m] != '.' by {
            assert(name[m] == p[i + m]);
        }
        if j > i {
            assert(name[j - 1 - i] == p[j - 1]);
        }
        lemma_last_index(name, '.', j - 1 - i);
    }
    if j > i && j - i > 1 {
        let mut r = path.substring_char(0, j - 1).to_owned();
        r.append(".utf8");
        r.append(path.substring_char(j - 1, n));
        proof {
            assert(p.subrange(0, j - 1) =~= p.take(j - 1));
            assert(p.subrange(j - 1, n as int) =~= p.skip(j - 1));
        }
        r
    } else {
        let mut r = path.to_owned();
        r.append(".utf8");
        r
    }
}

/// The two lines that warn that the file `path` looks like `e` text and show
/// how to convert it into its UTF-8 sibling.
pub fn encoding_warning(path: &str, e: Encoding) -> (r: (String, String))
    ensures
        r.0@ == warning_line(path@, e),
        r.1@ == hint_line(path@, e, utf8_sibling_spec(path@)),
{
    let converted = utf8_sibling_path(path);
    let mut w = "warning: ".to_owned();
    w.append(path);
    w.append(" appears to be ");
    w.append(e.display_name().as_str());
    w.append(" encoded.");
    let mut h = "hint: iconv -f ".to_owned();
    h.append(e.iconv_name().as_str());
    h.append(" -t UTF-8 ");
    h.append(path);
    h.append(" > ");
    h.append(converted.as_str());
    (w, h)
}

/// Whether `needle` occurs in `haystack` at index `i`.
pub open spec fn occurs_at(haystack: Seq<u8>, needle: Seq<u8>, i: int) -> bool {
    0 <= i && i + needle.len() <= haystack.len() && haystack.subrange(i, i + needle.len()) == needle
}

/// The index of the first occurrence of `needle` in `haystack`; `None` for an
/// empty needle or one longer than the haystack.
pub fn find_subslice(haystack: &[u8], needle: &[u8]) -> (r: Option<usize>)
    ensures
        needle@.len() == 0 ==> r is None,
        match r {
            Some(i) => needle@.len() > 0 && occurs_at(haystack@, needle@, i as int) && forall|j: int|
                0 <= j < i ==> !occurs_at(haystack@, needle@, j),
            None => forall|j: int| needle@.len() > 0 ==> !occurs_at(haystack@, needle@, j),
        },
{
    if needle.len() == 0 || needle.len() > haystack.len() {
        return None;
    }
    let last = haystack.len() - needle.len();
    let mut i: usize = 0;
    while i <= last
        invariant
            needle@.len() > 0,
            needle.len() <= haystack.len(),
            last == haystack.len() - needle.len(),
            i <= last + 1,
            forall|j: int| 0 <= j < i ==> !occurs_at(haystack@, needle@, j),
        decreases last + 1 - i,
    {
        let mut k: usize = 0;
        let mut same = true;
        while k < needle.len()
            invariant
                i <= last,
                last == haystack.len() - needle.len(),
                k <= needle.len(),
                same == (forall|m: int| 0 <= m < k ==> haystack@[i + m] == needle@[m]),
            decreases needle@.len() - k,
        {
            if haystack[i + k] != needle[k] {
                same = false;
            }
            k += 1;
        }
        proof {
            if same {
                assert(haystack@.subrange(i as int, i + needle@.len()) =~= needle@);
            } else {
                let m = choose|m: int| 0 <= m < k && haystack@[i + m] != needle@[m];
                assert(haystack@.subrange(i as int, i + needle@.len())[m] != needle@[m]);
            }
        }
        if same {
            return Some(i);
        }
        i += 1;
    }
    proof {
        assert forall|j: int| needle@.len() > 0 implies !occurs_at(haystack@, needle@, j) by {
            if occurs_at(haystack@, needle@, j) {
                assert(j <= last);
            }
        }
    }
    None
}

/// The encoding whose signature opens `window`: a UTF-16 byte-order mark, or
/// the UTF-7 escape `+ACI-` anywhere in it.
pub open spec fn sniff_spec(window: Seq<u8>) -> Option<Encoding> {
    if window.len() >= 2 && window[0] == 0xFF && window[1] == 0xFE {
        Some(Encoding::Utf16Le)
    } else if window.len() >= 2 && window[0] == 0xFE && window[1] == 0xFF {
        Some(Encoding::Utf16Be)
    } else if exists|i: int| occurs_at(window, utf7_marker(), i) {
        Some(Encoding::Utf7)
    } else {
        None
    }
}

/// Sniff the first `SCAN_WINDOW` bytes of a file's contents for a non-UTF-8
/// signature.
pub fn sniff_bytes(bytes: &[u8]) -> (r: Option<Encoding>)
    ensures
        r == sniff_spec(bytes@.take(if bytes@.len() < SCAN_WINDOW {
            bytes@.len() as int
        } else {
            SCAN_WINDOW as int
        })),
{
    let n = if bytes.len() < SCAN_WINDOW {
        bytes.len()
    } else {
        SCAN_WINDOW
    };
    let ghost w = bytes@.take(n as int);
    let mut window: Vec<u8> = Vec::new();
    let mut i: usize = 0;
    while i < n
        invariant
            i <= n <= bytes@.len(),
            window@ == bytes@.take(i as int),
        decreases n - i,
    {
        proof {
            assert(bytes@.take(i + 1) =~= bytes@.take(i as int).push(bytes@[i as int]));
        }
        window.push(bytes[i]);
        i += 1;
    }
    if window.len() >= 2 && window[0] == 0xFF && window[1] == 0xFE {
        return Some(Encoding::Utf16Le);
    }
    if window.len() >= 2 && window[0] == 0xFE && window[1] == 0xFF {
        return Some(Encoding::Utf16Be);
    }
    let marker: [u8; 5] = [43, 65, 67, 73, 45];
    proof {
        assert(marker@ =~= utf7_marker());
    }
    match find_subslice(window.as_slice(), marker.as_slice()) {
        Some(_) => Some(Encoding::Utf7),
        None => None,
    }
}

} // verus!
