use ved::action::{Action, Request};
use ved::address::{parse_dest, Address, Spec};
use ved::args::{parse_args, Args};
use ved::bre::{expand_replacement, Regex, Search};
use ved::buffer::Buffer;
use ved::command::{dispatch, resume_global};
use ved::enc::Encoding;
use ved::files::{finish_write, load_content, new_file, read_content};
use ved::repl::{show, trim_line, Session, Step};
use ved::subst::{scan_delimited, substitute_all, substitute_first, Substituted};

fn buffer_of(lines: &[&str]) -> Buffer {
    let mut b = Buffer::new();
    for (i, l) in lines.iter().enumerate() {
        b.append_after(i, (*l).to_string());
    }
    b
}

fn lines_of(b: &Buffer) -> Vec<String> {
    (1..=b.len()).map(|n| b.line(n).unwrap().to_string()).collect()
}

fn printed(a: &Action) -> String {
    match a {
        Action::Print(s) => s.clone(),
        Action::Error(s) => format!("? {s}"),
        _ => String::from("<other>"),
    }
}

// ── Buffer ───────────────────────────────────────────────────

#[test]
fn buffer_append_then_read_back() {
    let mut b = Buffer::new();
    assert!(b.is_empty());
    assert_eq!(b.line(1), None);
    b.append_after(0, "one".to_string());
    b.append_after(1, "three".to_string());
    b.append_after(1, "two".to_string());
    assert_eq!(lines_of(&b), vec!["one", "two", "three"]);
    assert_eq!(b.current(), 2);
    assert!(b.is_modified());
    assert_eq!(b.line(0), None);
    assert_eq!(b.line(4), None);
}

#[test]
fn buffer_delete_moves_current() {
    let mut b = buffer_of(&["a", "b", "c", "d"]);
    b.delete_range(2, 3);
    assert_eq!(lines_of(&b), vec!["a", "d"]);
    assert_eq!(b.current(), 2);
    b.delete_range(2, 2);
    assert_eq!(b.current(), 1);
    b.delete_range(1, 1);
    assert_eq!(b.current(), 0);
    assert!(b.is_empty());
}

#[test]
fn buffer_flags_and_names() {
    let mut b = buffer_of(&["x"]);
    b.mark_saved();
    assert!(!b.is_modified());
    b.replace_line(1, "y".to_string());
    assert!(b.is_modified());
    assert_eq!(b.line(1), Some("y"));
    assert_eq!(b.filename(), None);
    b.set_filename("f.txt".to_string());
    assert_eq!(b.filename(), Some("f.txt"));
    assert!(b.last_subst().is_none());
    b.set_last_subst(b"a".to_vec(), b"b".to_vec(), true);
    assert_eq!(b.last_subst(), Some(&(b"a".to_vec(), b"b".to_vec(), true)));
}

// ── Addresses ────────────────────────────────────────────────

#[test]
fn parse_shorthands() {
    let (s, rest) = Spec::parse(",p").unwrap();
    assert!(s.start == Some(Address::Number(1)) && s.end == Some(Address::Last));
    assert_eq!(rest, "p");
    let (s, rest) = Spec::parse(";n").unwrap();
    assert!(s.start == Some(Address::Current) && s.end == Some(Address::Last));
    assert_eq!(rest, "n");
    let (s, rest) = Spec::parse("5,").unwrap();
    assert!(s.start == Some(Address::Number(5)) && s.end == Some(Address::Last));
    assert_eq!(rest, "");
    let (s, rest) = Spec::parse("-p").unwrap();
    assert!(s.start == Some(Address::Offset(-1)) && s.end.is_none());
    assert_eq!(rest, "p");
    let (s, rest) = Spec::parse("+12,$d").unwrap();
    assert!(s.start == Some(Address::Offset(12)) && s.end == Some(Address::Last));
    assert_eq!(rest, "d");
    let (s, rest) = Spec::parse("q").unwrap();
    assert!(s.is_empty());
    assert_eq!(rest, "q");
}

#[test]
fn parse_rejects_numbers_too_large() {
    assert_eq!(Spec::parse("99999999999999999999999p").err(), Some("invalid address".to_string()));
    assert_eq!(Spec::parse("+99999999999999999999999").err(), Some("invalid address".to_string()));
}

#[test]
fn resolve_ranges() {
    let mut b = buffer_of(&["a", "b", "c", "d", "e"]);
    b.set_current(3);
    let r = Spec::parse("").unwrap().0.resolve(&b).unwrap();
    assert_eq!((r.start, r.end), (3, 3));
    let r = Spec::parse("").unwrap().0.resolve_or_whole(&b).unwrap();
    assert_eq!((r.start, r.end), (1, 5));
    let r = Spec::parse("-1,+2").unwrap().0.resolve(&b).unwrap();
    assert_eq!((r.start, r.end), (2, 5));
    let r = Spec::parse("").unwrap().0.resolve_or_pair_with_next(&b).unwrap();
    assert_eq!((r.start, r.end), (3, 4));
    assert!(Spec::parse("4,2").unwrap().0.resolve(&b).is_err());
    assert!(Spec::parse("0").unwrap().0.resolve(&b).is_err());
    assert!(Spec::parse("6").unwrap().0.resolve(&b).is_err());
    assert!(Spec::parse("-3").unwrap().0.resolve(&b).is_err());
    assert!(Spec::parse("1").unwrap().0.resolve(&Buffer::new()).is_err());
}

#[test]
fn destinations() {
    let mut b = buffer_of(&["a", "b", "c"]);
    b.set_current(2);
    assert_eq!(parse_dest(" 0", &b).unwrap().0, 0);
    assert_eq!(parse_dest("$", &b).unwrap().0, 3);
    assert_eq!(parse_dest("", &b).unwrap().0, 2);
    assert_eq!(parse_dest("+1x", &b).unwrap(), (3, "x"));
    assert!(parse_dest("4", &b).is_err());
}

// ── Regex ────────────────────────────────────────────────────

#[test]
fn octal_escape_in_pattern() {
    let m = Regex::compile(b"a\\011b").find(b"xa\tb").unwrap();
    assert_eq!((m.start, m.end), (1, 4));
    assert!(Regex::compile(b"\\0").find(b"0").is_some());
}

#[test]
fn too_many_groups_is_reported() {
    let p = b"\\(a\\)\\(a\\)\\(a\\)\\(a\\)\\(a\\)\\(a\\)\\(a\\)\\(a\\)\\(a\\)\\(a\\)";
    let re = Regex::compile(p);
    assert!(matches!(re.search(b"aaaaaaaaaa"), Search::GroupLimit));
    assert!(matches!(re.search(b"b"), Search::NotFound));
}

#[test]
fn leftmost_and_lazy_star() {
    let m = Regex::compile(b"b*c").find(b"abbbcbc").unwrap();
    assert_eq!((m.start, m.end), (1, 5));
    let m = Regex::compile(b"a\\(b*\\)").find(b"abbb").unwrap();
    assert_eq!(m.group(1), Some((1, 1)));
}

#[test]
fn replacement_expansion() {
    let text = b"hello world";
    let m = Regex::compile(b"\\(w\\)orld").find(text).unwrap();
    assert_eq!(expand_replacement(b"[&]", &m, text), b"[world]".to_vec());
    assert_eq!(expand_replacement(b"\\1-\\2", &m, text), b"w-".to_vec());
    assert_eq!(expand_replacement(b"\\&\\\\", &m, text), b"&\\".to_vec());
    assert_eq!(expand_replacement(b"\\011x\\", &m, text), b"\tx\\".to_vec());
}

// ── Substitute ───────────────────────────────────────────────

#[test]
fn scan_fields() {
    let (f, rest) = scan_delimited(b"a\\/b/rest", b'/').unwrap();
    assert_eq!(f, b"a/b".to_vec());
    assert_eq!(rest, b"rest");
    let (f, _) = scan_delimited(b"a\\.b/", b'/').unwrap();
    assert_eq!(f, b"a\\.b".to_vec());
    assert!(scan_delimited(b"abc", b'/').is_none());
}

#[test]
fn substitute_one_and_all() {
    let re = Regex::compile(b"o");
    match substitute_first(&re, b"foo", b"0") {
        Substituted::Changed(v) => assert_eq!(v, b"f0o".to_vec()),
        _ => panic!("expected a change"),
    }
    match substitute_all(&re, b"foo", b"0") {
        Substituted::Changed(v) => assert_eq!(v, b"f00".to_vec()),
        _ => panic!("expected a change"),
    }
    assert!(matches!(substitute_all(&re, b"bar", b"0"), Substituted::Unchanged));
    let empty = Regex::compile(b"x*");
    match substitute_all(&empty, b"abc", b"-") {
        Substituted::Changed(v) => assert_eq!(v, b"-a-b-c-".to_vec()),
        _ => panic!("expected a change"),
    }
}

#[test]
fn substitute_command_messages() {
    let mut b = buffer_of(&["cat", "dog"]);
    assert_eq!(printed(&dispatch(",s/o/0/", &mut b)), "d0g");
    assert_eq!(b.current(), 2);
    assert_eq!(printed(&dispatch("1s/z/y/", &mut b)), "? no match");
    assert_eq!(printed(&dispatch("1s/a", &mut b)), "? unterminated pattern");
    assert_eq!(printed(&dispatch("1s/a/b", &mut b)), "? unterminated replacement");
    assert_eq!(printed(&dispatch("1s/\\(c\\)\\(a\\)/\\2\\1/", &mut b)), "act");
}

// ── Other commands ───────────────────────────────────────────

#[test]
fn print_modes() {
    let mut b = buffer_of(&["a\tb", "c"]);
    assert_eq!(printed(&dispatch(",p", &mut b)), "a\tb\nc");
    assert_eq!(printed(&dispatch(",n", &mut b)), "1\ta\tb\n2\tc");
    assert_eq!(printed(&dispatch("1l", &mut b)), "a\\011b$");
    assert_eq!(b.current(), 1);
    assert_eq!(printed(&dispatch("", &mut b)), "c");
    assert_eq!(printed(&dispatch("", &mut b)), "? invalid address");
}

#[test]
fn delete_messages() {
    let mut b = buffer_of(&["a", "b", "c", "d"]);
    assert_eq!(printed(&dispatch("2d", &mut b)), "deleted line 2");
    assert_eq!(printed(&dispatch("1,2d", &mut b)), "deleted 2 lines (1-2)");
    assert_eq!(lines_of(&b), vec!["d"]);
}

#[test]
fn append_insert_change_positions() {
    let mut b = buffer_of(&["a", "b", "c"]);
    assert!(matches!(dispatch("2a", &mut b), Action::EnterInputMode));
    assert_eq!(b.current(), 2);
    assert!(matches!(dispatch("1i", &mut b), Action::EnterInputMode));
    assert_eq!(b.current(), 0);
    assert!(matches!(dispatch("2,3c", &mut b), Action::EnterInputMode));
    assert_eq!(lines_of(&b), vec!["a"]);
    assert_eq!(b.current(), 1);
    assert!(matches!(dispatch("5i", &mut b), Action::Error(_)));
}

#[test]
fn word_commands() {
    let mut b = buffer_of(&["a"]);
    assert!(matches!(dispatch("q", &mut b), Action::Quit));
    assert!(matches!(dispatch("quit", &mut b), Action::Quit));
    assert!(matches!(dispatch("Q", &mut b), Action::ForceQuit));
    assert!(printed(&dispatch("help", &mut b)).starts_with("ved commands"));
    assert_eq!(printed(&dispatch("zap", &mut b)), "? unknown command: zap");
    assert_eq!(printed(&dispatch("  1p", &mut b)), "a");
}

#[test]
fn global_and_inverse() {
    let mut b = buffer_of(&["apple", "banana", "cherry", "avocado"]);
    assert_eq!(printed(&dispatch("g/^a/n", &mut b)), "1\tapple\n4\tavocado");
    assert_eq!(printed(&dispatch("v/^a/p", &mut b)), "banana\ncherry");
    assert_eq!(printed(&dispatch("g/zzz/p", &mut b)), "? no match");
    assert_eq!(printed(&dispatch("g", &mut b)), "? no delimiter");
    assert_eq!(printed(&dispatch("g/a", &mut b)), "? unterminated pattern");
    assert!(matches!(dispatch("g/an/d", &mut b), Action::Done));
    assert_eq!(lines_of(&b), vec!["apple", "cherry", "avocado"]);
    assert_eq!(printed(&dispatch("g/a/s/a/A/g", &mut b)), "Apple\nAvocAdo");
}

#[test]
fn file_commands_ask_for_io() {
    let mut b = buffer_of(&["a", "b"]);
    assert_eq!(printed(&dispatch("w", &mut b)), "? no current filename");
    match dispatch("w out.txt", &mut b) {
        Action::Write(f, content, whole) => {
            assert_eq!(f, "out.txt");
            assert_eq!(content, "a\nb\n");
            assert!(whole);
        }
        _ => panic!("expected a write request"),
    }
    match dispatch("2w part.txt", &mut b) {
        Action::Write(_, content, whole) => {
            assert_eq!(content, "b\n");
            assert!(!whole);
        }
        _ => panic!("expected a write request"),
    }
    match dispatch("1r in.txt", &mut b) {
        Action::Read(after, f) => {
            assert_eq!(after, 1);
            assert_eq!(f, "in.txt");
        }
        _ => panic!("expected a read request"),
    }
    assert_eq!(printed(&dispatch("e new.txt", &mut b)), "? warning: buffer modified");
    assert_eq!(lines_of(&b), vec!["a", "b"]);
    assert!(b.is_modified());
    b.mark_saved();
    match dispatch("e new.txt", &mut b) {
        Action::Edit(f) => assert_eq!(f, "new.txt"),
        _ => panic!("expected an edit request"),
    }
    assert!(b.is_empty());
}

#[test]
fn applying_file_contents() {
    let mut b = Buffer::new();
    let a = load_content(&mut b, "f.txt".to_string(), "one\r\ntwo\n\nthree\r");
    assert_eq!(show(&a), Some("16".to_string()));
    assert_eq!(lines_of(&b), vec!["one", "two", "", "three\r"]);
    assert!(!b.is_modified());
    assert_eq!(b.filename(), Some("f.txt"));
    let a = read_content(&mut b, 1, "g.txt".to_string(), "x\ny");
    assert_eq!(show(&a), Some("3".to_string()));
    assert_eq!(lines_of(&b), vec!["one", "x", "y", "two", "", "three\r"]);
    assert_eq!(b.current(), 3);
    assert_eq!(b.filename(), Some("f.txt"));
    let a = finish_write(&mut b, "h.txt".to_string(), "one\nx\ny\nté\n", true);
    assert_eq!(show(&a), Some("wrote 12 bytes to h.txt".to_string()));
    assert!(!b.is_modified());
    assert_eq!(b.filename(), Some("h.txt"));
    let mut c = Buffer::new();
    assert_eq!(show(&new_file(&mut c, "n.txt".to_string())), Some("n.txt: new file".to_string()));
    assert_eq!(c.filename(), Some("n.txt"));
}

#[test]
fn partial_write_keeps_modified() {
    let mut b = buffer_of(&["a"]);
    let _ = finish_write(&mut b, "h.txt".to_string(), "a\n", false);
    assert!(b.is_modified());
}

// ── Session ──────────────────────────────────────────────────

#[test]
fn trim_line_keeps_trailing_spaces() {
    assert_eq!(trim_line("  hello   \n"), "  hello   ");
    assert_eq!(trim_line("a\r\n"), "a");
    assert_eq!(trim_line("a\n\n"), "a");
    assert_eq!(trim_line("a"), "a");
}

#[test]
fn quit_on_modified_buffer_warns_once() {
    let mut b = Buffer::new();
    let mut s = Session::new();
    assert!(matches!(s.step(&mut b, "a\n"), Step::Output(None)));
    assert!(s.input_mode);
    assert!(!s.shows_prompt());
    assert!(matches!(s.step(&mut b, "hello\n"), Step::Output(None)));
    assert!(matches!(s.step(&mut b, ".\n"), Step::Output(None)));
    assert_eq!(lines_of(&b), vec!["hello"]);
    match s.step(&mut b, "q\n") {
        Step::Output(Some(m)) => assert_eq!(m, "? warning: buffer modified"),
        _ => panic!("expected a warning"),
    }
    assert!(matches!(s.step(&mut b, "q\n"), Step::Exit));
}

#[test]
fn intervening_command_resets_quit_warning() {
    let mut b = buffer_of(&["x"]);
    let mut s = Session::new();
    assert!(matches!(s.step(&mut b, "q\n"), Step::Output(Some(_))));
    assert!(matches!(s.step(&mut b, "p\n"), Step::Output(Some(_))));
    assert!(matches!(s.step(&mut b, "q\n"), Step::Output(Some(_))));
    assert!(matches!(s.step(&mut b, "q\n"), Step::Exit));
}

#[test]
fn clean_buffer_quits_at_once() {
    let mut b = Buffer::new();
    let mut s = Session::new();
    assert!(matches!(s.step(&mut b, "q\n"), Step::Exit));
}

#[test]
fn errors_are_shown_with_question_mark() {
    let mut b = Buffer::new();
    let mut s = Session::new();
    match s.step(&mut b, "p\n") {
        Step::Output(Some(m)) => assert_eq!(m, "? invalid address"),
        _ => panic!("expected an error"),
    }
    assert!(matches!(s.step(&mut b, "w\n"), Step::Output(Some(_))));
    assert!(matches!(s.step(&mut b, "w f\n"), Step::Io(Action::Write(..))));
}

// ── Arguments ────────────────────────────────────────────────

fn args(v: &[&str]) -> Vec<String> {
    v.iter().map(|s| s.to_string()).collect()
}

#[test]
fn argument_forms() {
    match parse_args(&args(&["-p", "* ", "file.txt"])) {
        Args::Run(p, f) => {
            assert_eq!(p.as_deref(), Some("* "));
            assert_eq!(f.as_deref(), Some("file.txt"));
        }
        _ => panic!("expected run"),
    }
    match parse_args(&args(&["--prompt=> "])) {
        Args::Run(p, f) => {
            assert_eq!(p.as_deref(), Some("> "));
            assert_eq!(f, None);
        }
        _ => panic!("expected run"),
    }
    assert!(matches!(parse_args(&args(&["a", "--help", "-x"])), Args::Help));
    assert!(matches!(parse_args(&args(&["-V"])), Args::Version));
    match parse_args(&args(&["--prompt"])) {
        Args::Error(e) => assert_eq!(e, "--prompt requires a value"),
        _ => panic!("expected an error"),
    }
    match parse_args(&args(&["-x"])) {
        Args::Error(e) => assert_eq!(e, "unknown option: -x"),
        _ => panic!("expected an error"),
    }
}

#[test]
fn bare_invocation_is_a_usage_error() {
    match parse_args(&args(&[])) {
        Args::Error(e) => assert_eq!(e, "no arguments: give a file name or an option"),
        _ => panic!("expected a usage error"),
    }
}

#[test]
fn edit_with_unsaved_changes_warns_then_goes_ahead() {
    let mut b = Buffer::new();
    let _ = load_content(&mut b, "a.txt".to_string(), "one\n");
    let mut s = Session::new();
    assert!(matches!(s.step(&mut b, "1d\n"), Step::Output(Some(_))));
    match s.step(&mut b, "e b.txt\n") {
        Step::Output(Some(m)) => assert_eq!(m, "? warning: buffer modified"),
        _ => panic!("expected a warning"),
    }
    assert!(b.is_modified());
    assert_eq!(b.filename(), Some("a.txt"));
    match s.step(&mut b, "e b.txt\n") {
        Step::Io(Action::Edit(f)) => assert_eq!(f, "b.txt"),
        _ => panic!("expected the edit to go ahead"),
    }
    assert!(b.is_empty());
    assert!(!b.is_modified());
}

#[test]
fn edit_warning_is_reset_by_another_command() {
    let mut b = buffer_of(&["x"]);
    let mut s = Session::new();
    assert!(matches!(s.step(&mut b, "e f\n"), Step::Output(Some(_))));
    assert!(matches!(s.step(&mut b, "p\n"), Step::Output(Some(_))));
    assert!(matches!(s.step(&mut b, "e f\n"), Step::Output(Some(_))));
    assert_eq!(lines_of(&b), vec!["x"]);
}

#[test]
fn global_substitute_anchors_caret_at_line_start() {
    let re = Regex::compile(b"^a");
    match substitute_all(&re, b"aaa", b"Z") {
        Substituted::Changed(v) => assert_eq!(v, b"Zaa".to_vec()),
        _ => panic!("expected a change"),
    }
    let re = Regex::compile(b"$");
    match substitute_all(&re, b"abc", b"X") {
        Substituted::Changed(v) => assert_eq!(v, b"abcX".to_vec()),
        _ => panic!("expected a change"),
    }
    let mut b = buffer_of(&["aaa"]);
    assert_eq!(printed(&dispatch("s/^a/Z/g", &mut b)), "Zaa");
}

#[test]
fn write_then_load_round_trip() {
    let mut b = buffer_of(&["alpha", "", "gamma delta", "é"]);
    let content = match dispatch("w out.txt", &mut b) {
        Action::Write(_, content, whole) => {
            assert!(whole);
            content
        }
        _ => panic!("expected a write request"),
    };
    let mut c = Buffer::new();
    let _ = load_content(&mut c, "out.txt".to_string(), &content);
    assert_eq!(lines_of(&c), lines_of(&b));
}

#[test]
fn edits_mark_the_buffer_modified() {
    for cmd in ["1d", "1,2j", "1m$", "1t0", "1s/a/b/"] {
        let mut b = Buffer::new();
        let _ = load_content(&mut b, "f.txt".to_string(), "a\nb\nc\n");
        assert!(!b.is_modified());
        let _ = dispatch(cmd, &mut b);
        assert!(b.is_modified(), "{cmd} left the buffer unmodified");
    }
    let mut b = Buffer::new();
    let _ = load_content(&mut b, "f.txt".to_string(), "a\nb\n");
    assert_eq!(printed(&dispatch("s/z/y/", &mut b)), "? no match");
    assert!(!b.is_modified());
}

#[test]
fn global_marks_exactly_the_matching_lines_in_range() {
    let mut b = buffer_of(&["ab", "b", "ab", "b", "ab"]);
    assert_eq!(printed(&dispatch("2,4g/a/n", &mut b)), "3\tab");
    assert_eq!(printed(&dispatch("2,4v/a/n", &mut b)), "2\tb\n4\tb");
}

#[test]
fn global_stops_for_file_io_and_resumes() {
    let mut b = buffer_of(&["x1", "y", "x2"]);
    let pending = match dispatch("g/x/.w out.txt", &mut b) {
        Action::Suspended(Request::Write(f, content, whole), pending) => {
            assert_eq!(f, "out.txt");
            assert_eq!(content, "x1\n");
            assert!(!whole);
            assert_eq!(pending.len(), 1);
            assert_eq!(pending[0].next, 1);
            pending
        }
        _ => panic!("expected a suspended write"),
    };
    let pending = match resume_global(pending, &mut b, Action::Print("first".to_string())) {
        Action::Suspended(Request::Write(_, content, _), pending) => {
            assert_eq!(content, "x2\n");
            assert_eq!(pending[0].output, "first");
            pending
        }
        _ => panic!("expected a second suspended write"),
    };
    let done = resume_global(pending, &mut b, Action::Error("disk full".to_string()));
    assert_eq!(printed(&done), "first\n? disk full");
    assert_eq!(printed(&resume_global(Vec::new(), &mut b, Action::Done)), "<other>");
}

#[test]
fn nested_global_keeps_both_loops_suspended() {
    let mut b = buffer_of(&["x1", "y", "x2"]);
    let pending = match dispatch("g/x/g/x/.w f", &mut b) {
        Action::Suspended(Request::Write(_, content, _), pending) => {
            assert_eq!(content, "x1\n");
            assert_eq!(pending.len(), 2);
            assert_eq!(pending[0].cmd, "g/x/.w f");
            assert_eq!(pending[1].cmd, ".w f");
            pending
        }
        _ => panic!("expected a suspended write"),
    };
    match resume_global(pending, &mut b, Action::Print("a".to_string())) {
        Action::Suspended(Request::Write(_, content, _), pending) => {
            assert_eq!(content, "x2\n");
            assert_eq!(pending.len(), 2);
            assert_eq!(pending[1].output, "a");
        }
        _ => panic!("expected the inner loop to stop again"),
    }
}

#[test]
fn global_edit_empties_the_buffer_and_asks_to_load() {
    let mut b = buffer_of(&["x", "y"]);
    assert_eq!(printed(&dispatch("g/x/e other.txt", &mut b)), "? warning: buffer modified");
    assert_eq!(lines_of(&b), vec!["x", "y"]);
    b.mark_saved();
    match dispatch("g/x/e other.txt", &mut b) {
        Action::Suspended(Request::Edit(f), pending) => {
            assert_eq!(f, "other.txt");
            assert!(b.is_empty());
            let _ = load_content(&mut b, f, "p\nq\n");
            let done = resume_global(pending, &mut b, Action::Print("4".to_string()));
            assert_eq!(printed(&done), "4");
            assert_eq!(lines_of(&b), vec!["p", "q"]);
        }
        _ => panic!("expected a suspended edit"),
    }
}

#[test]
fn write_refuses_the_protected_file() {
    let refusal = "? refusing to overwrite old.txt: it appears to be UTF-7 encoded; write to a new file name";
    let mut b = buffer_of(&["a"]);
    b.protect("old.txt".to_string(), Encoding::Utf7);
    assert_eq!(printed(&dispatch("w old.txt", &mut b)), refusal);
    assert_eq!(printed(&dispatch("1w old.txt", &mut b)), refusal);
    assert!(matches!(dispatch("w new.txt", &mut b), Action::Write(..)));
    b.set_filename("old.txt".to_string());
    assert_eq!(printed(&dispatch("w", &mut b)), refusal);
    assert!(b.is_modified());
    b.mark_saved();
    assert!(matches!(dispatch("e other.txt", &mut b), Action::Edit(..)));
    assert_eq!(printed(&dispatch("w old.txt", &mut b)), refusal);
}
