use ved::action::Action;
use ved::buffer::Buffer;
use ved::command::dispatch;
use ved::edit::render_list_line;

// ── render_list_line (l command) ─────────────────────────

#[test]
fn list_printable_ascii_passes_through() {
    assert_eq!(render_list_line("hello world"), "hello world$");
}

#[test]
fn list_empty_line_is_just_dollar() {
    assert_eq!(render_list_line(""), "$");
}

#[test]
fn list_tab_becomes_octal() {
    assert_eq!(render_list_line("a\tb"), "a\\011b$");
}

#[test]
fn list_ascii_separators_become_octal() {
    // FS GS RS US — the ASCII information separators
    let s = "A\u{1C}B\u{1D}C\u{1E}D\u{1F}E";
    assert_eq!(render_list_line(s), "A\\034B\\035C\\036D\\037E$");
}

#[test]
fn list_backslash_escapes_to_double_backslash() {
    assert_eq!(render_list_line("a\\b"), "a\\\\b$");
}

#[test]
fn list_utf8_multibyte_renders_byte_by_byte() {
    // ü is 0xC3 0xBC in UTF-8; l surfaces every non-ASCII byte
    assert_eq!(render_list_line("ü"), "\\303\\274$");
}

#[test]
fn list_high_bit_byte_pads_to_three_digits() {
    // 0x7F (DEL) is non-printable; 0xFF is high-bit
    let s = "\u{7F}";
    assert_eq!(render_list_line(s), "\\177$");
}

// ── j (join) command ─────────────────────────────────────

fn buf_with(lines: &[&str]) -> Buffer {
    let mut b = Buffer::new();
    for (i, l) in lines.iter().enumerate() {
        b.append_after(i, (*l).to_string());
    }
    b
}

#[test]
fn join_default_joins_current_and_next() {
    let mut buf = buf_with(&["foo", "bar", "baz"]);
    buf.set_current(1);
    let act = dispatch("j", &mut buf);
    assert!(matches!(act, Action::Print(_)));
    assert_eq!(buf.len(), 2);
    assert_eq!(buf.line(1), Some("foobar"));
    assert_eq!(buf.line(2), Some("baz"));
    assert_eq!(buf.current(), 1);
}

#[test]
fn join_range_concatenates_all_lines() {
    let mut buf = buf_with(&["a", "b", "c", "d", "e"]);
    let act = dispatch("2,4j", &mut buf);
    assert!(matches!(act, Action::Print(_)));
    assert_eq!(buf.len(), 3);
    assert_eq!(buf.line(2), Some("bcd"));
    assert_eq!(buf.line(3), Some("e"));
    assert_eq!(buf.current(), 2);
}

#[test]
fn join_single_line_is_silent_noop() {
    let mut buf = buf_with(&["one", "two", "three"]);
    let act = dispatch("2j", &mut buf);
    if let Action::Print(s) = act {
        assert!(s.is_empty());
    } else {
        panic!("expected silent Print on single-line join");
    }
    assert_eq!(buf.len(), 3);
    assert_eq!(buf.line(2), Some("two"));
    assert_eq!(buf.current(), 2);
}

#[test]
fn join_does_not_insert_separators() {
    // ed semantics: literal concatenation, no spaces added.
    let mut buf = buf_with(&["hello", "world"]);
    let _ = dispatch("1,2j", &mut buf);
    assert_eq!(buf.line(1), Some("helloworld"));
}

#[test]
fn join_at_last_line_errors() {
    // Bare `j` on the last line wants `.+1`, which is off-end.
    let mut buf = buf_with(&["only", "lines", "here"]);
    buf.set_current(3);
    let act = dispatch("j", &mut buf);
    assert!(matches!(act, Action::Error(_)));
}

#[test]
fn join_long_form_alias_works() {
    let mut buf = buf_with(&["a", "b", "c"]);
    let _ = dispatch("1,3join", &mut buf);
    assert_eq!(buf.len(), 1);
    assert_eq!(buf.line(1), Some("abc"));
}

#[test]
fn join_marks_buffer_modified() {
    let mut buf = buf_with(&["x", "y"]);
    buf.mark_saved();
    assert!(!buf.is_modified());
    let _ = dispatch("1,2j", &mut buf);
    assert!(buf.is_modified());
}

// ── m (move) command ─────────────────────────────────────

#[test]
fn move_range_to_after_later_line() {
    let mut buf = buf_with(&["a", "b", "c", "d", "e"]);
    let _ = dispatch("2,3m5", &mut buf);
    // Removed b, c from positions 2-3; appended after the
    // shifted-down dest. Result: a, d, e, b, c.
    assert_eq!(buf.line(1), Some("a"));
    assert_eq!(buf.line(2), Some("d"));
    assert_eq!(buf.line(3), Some("e"));
    assert_eq!(buf.line(4), Some("b"));
    assert_eq!(buf.line(5), Some("c"));
    assert_eq!(buf.current(), 5);
}

#[test]
fn move_range_to_after_earlier_line() {
    let mut buf = buf_with(&["a", "b", "c", "d", "e"]);
    let _ = dispatch("4,5m1", &mut buf);
    // Move d,e to after line 1. Result: a, d, e, b, c.
    assert_eq!(buf.line(1), Some("a"));
    assert_eq!(buf.line(2), Some("d"));
    assert_eq!(buf.line(3), Some("e"));
    assert_eq!(buf.line(4), Some("b"));
    assert_eq!(buf.line(5), Some("c"));
}

#[test]
fn move_to_top_with_dest_zero() {
    let mut buf = buf_with(&["a", "b", "c"]);
    let _ = dispatch("3m0", &mut buf);
    assert_eq!(buf.line(1), Some("c"));
    assert_eq!(buf.line(2), Some("a"));
    assert_eq!(buf.line(3), Some("b"));
    assert_eq!(buf.current(), 1);
}

#[test]
fn move_to_end_with_dollar() {
    let mut buf = buf_with(&["a", "b", "c", "d"]);
    let _ = dispatch("1m$", &mut buf);
    // Move line 1 to after line 4 (the $). Result: b, c, d, a.
    assert_eq!(buf.line(1), Some("b"));
    assert_eq!(buf.line(2), Some("c"));
    assert_eq!(buf.line(3), Some("d"));
    assert_eq!(buf.line(4), Some("a"));
}

#[test]
fn move_into_self_errors() {
    let mut buf = buf_with(&["a", "b", "c", "d", "e"]);
    let act = dispatch("2,4m3", &mut buf);
    assert!(matches!(act, Action::Error(_)));
    // Buffer unchanged
    assert_eq!(buf.line(2), Some("b"));
    assert_eq!(buf.line(3), Some("c"));
    assert_eq!(buf.line(4), Some("d"));
}

#[test]
fn move_invalid_dest_errors() {
    let mut buf = buf_with(&["a", "b"]);
    let act = dispatch("1m99", &mut buf);
    assert!(matches!(act, Action::Error(_)));
}

// ── t (transfer/copy) command ────────────────────────────

#[test]
fn transfer_copies_range_after_dest() {
    let mut buf = buf_with(&["a", "b", "c"]);
    let _ = dispatch("1,2t3", &mut buf);
    // Original lines stay, copy of 1-2 appended after 3.
    assert_eq!(buf.len(), 5);
    assert_eq!(buf.line(4), Some("a"));
    assert_eq!(buf.line(5), Some("b"));
    assert_eq!(buf.current(), 5);
}

#[test]
fn transfer_to_top_with_dest_zero() {
    let mut buf = buf_with(&["x", "y"]);
    let _ = dispatch("2t0", &mut buf);
    assert_eq!(buf.line(1), Some("y"));
    assert_eq!(buf.line(2), Some("x"));
    assert_eq!(buf.line(3), Some("y"));
    assert_eq!(buf.current(), 1);
}

#[test]
fn transfer_within_self_is_allowed() {
    // Unlike m, t can target inside the source range.
    let mut buf = buf_with(&["a", "b", "c", "d"]);
    let act = dispatch("1,3t2", &mut buf);
    assert!(matches!(act, Action::Print(_)));
    assert_eq!(buf.len(), 7);
}

#[test]
fn move_and_transfer_mark_buffer_modified() {
    let mut buf = buf_with(&["a", "b", "c"]);
    buf.mark_saved();
    let _ = dispatch("1t3", &mut buf);
    assert!(buf.is_modified());

    let mut buf = buf_with(&["a", "b", "c"]);
    buf.mark_saved();
    let _ = dispatch("1m3", &mut buf);
    assert!(buf.is_modified());
}

// ── bare s repeats last substitute ───────────────────────

#[test]
fn bare_s_with_no_prior_substitute_errors() {
    let mut buf = buf_with(&["hello world"]);
    let act = dispatch("s", &mut buf);
    assert!(matches!(act, Action::Error(_)));
}

#[test]
fn bare_s_repeats_last_substitute() {
    let mut buf = buf_with(&["foo", "foo", "foo"]);
    let _ = dispatch("1s/foo/bar/", &mut buf);
    assert_eq!(buf.line(1), Some("bar"));
    // Bare s on a different line replays it.
    let _ = dispatch("2s", &mut buf);
    assert_eq!(buf.line(2), Some("bar"));
    let _ = dispatch("3s", &mut buf);
    assert_eq!(buf.line(3), Some("bar"));
}

#[test]
fn bare_s_preserves_global_flag() {
    let mut buf = buf_with(&["xxx xxx xxx"]);
    let _ = dispatch("s/x/Y/g", &mut buf);
    assert_eq!(buf.line(1), Some("YYY YYY YYY"));
    // Reset the line content, then bare s should also be global.
    buf.replace_line(1, "xxx xxx xxx".to_string());
    let _ = dispatch("s", &mut buf);
    assert_eq!(buf.line(1), Some("YYY YYY YYY"));
}

#[test]
fn bare_s_without_global_flag_stays_non_global() {
    let mut buf = buf_with(&["aaa aaa"]);
    let _ = dispatch("s/a/Z/", &mut buf);
    // First a only.
    assert_eq!(buf.line(1), Some("Zaa aaa"));
    let _ = dispatch("s", &mut buf);
    // Bare s repeats: still non-global, so next first-a becomes Z.
    assert_eq!(buf.line(1), Some("ZZa aaa"));
}

#[test]
fn explicit_s_updates_the_remembered_state() {
    let mut buf = buf_with(&["one two three"]);
    let _ = dispatch("s/one/ONE/", &mut buf);
    assert_eq!(buf.line(1), Some("ONE two three"));
    // A new explicit s replaces the remembered command.
    let _ = dispatch("s/two/TWO/", &mut buf);
    assert_eq!(buf.line(1), Some("ONE TWO three"));
    // Reset and confirm bare s now reuses the SECOND substitute.
    buf.replace_line(1, "one two three".to_string());
    let _ = dispatch("s", &mut buf);
    assert_eq!(buf.line(1), Some("one TWO three"));
}
