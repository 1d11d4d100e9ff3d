use ved::enc::{encoding_warning, find_subslice, sniff_bytes, utf8_sibling_path, Encoding};

#[test]
fn detects_utf7_marker() {
    assert_eq!(Encoding::Utf7.display_name(), "UTF-7");
    assert_eq!(Encoding::Utf16Le.display_name(), "UTF-16 little-endian");
    assert_eq!(Encoding::Utf16Be.display_name(), "UTF-16 big-endian");
}

#[test]
fn find_subslice_matches() {
    assert_eq!(find_subslice(b"hello world", b"world"), Some(6));
    assert_eq!(find_subslice(b"hello", b"world"), None);
    assert_eq!(find_subslice(b"", b"x"), None);
}

#[test]
fn find_subslice_empty_needle_is_none() {
    assert_eq!(find_subslice(b"abc", b""), None);
    assert_eq!(find_subslice(b"abab", b"ab"), Some(0));
    assert_eq!(find_subslice(b"xxab", b"ab"), Some(2));
}

#[test]
fn sniff_recognises_signatures() {
    assert_eq!(sniff_bytes(&[0xFF, 0xFE, 0x41, 0x00]), Some(Encoding::Utf16Le));
    assert_eq!(sniff_bytes(&[0xFE, 0xFF, 0x00, 0x41]), Some(Encoding::Utf16Be));
    assert_eq!(sniff_bytes(b"name,+ACI-quoted+ACI-"), Some(Encoding::Utf7));
    assert_eq!(sniff_bytes(b"plain text\n"), None);
    assert_eq!(sniff_bytes(b""), None);
}

#[test]
fn sniff_looks_only_at_the_first_window() {
    let mut bytes = vec![b'a'; 4096];
    bytes.extend_from_slice(b"+ACI-");
    assert_eq!(sniff_bytes(&bytes), None);
    let mut bytes = vec![b'a'; 4091];
    bytes.extend_from_slice(b"+ACI-");
    assert_eq!(sniff_bytes(&bytes), Some(Encoding::Utf7));
}

#[test]
fn iconv_names() {
    assert_eq!(Encoding::Utf7.iconv_name(), "UTF-7");
    assert_eq!(Encoding::Utf16Le.iconv_name(), "UTF-16LE");
    assert_eq!(Encoding::Utf16Be.iconv_name(), "UTF-16BE");
}

#[test]
fn warning_names_the_encoding_and_the_conversion() {
    let (w, h) = encoding_warning("notes.txt", Encoding::Utf16Le);
    assert_eq!(w, "warning: notes.txt appears to be UTF-16 little-endian encoded.");
    assert_eq!(h, "hint: iconv -f UTF-16LE -t UTF-8 notes.txt > notes.utf8.txt");
}

#[test]
fn utf8_sibling_path_inserts_utf8_before_extension() {
    assert_eq!(utf8_sibling_path("Roster.csv"), "Roster.utf8.csv");
    assert_eq!(utf8_sibling_path("noext"), "noext.utf8");
    assert_eq!(utf8_sibling_path("/tmp/data.txt"), "/tmp/data.utf8.txt");
}

#[test]
fn utf8_sibling_path_of_dot_files_and_directories() {
    assert_eq!(utf8_sibling_path(".bashrc"), ".bashrc.utf8");
    assert_eq!(utf8_sibling_path("a.tar.gz"), "a.tar.utf8.gz");
    assert_eq!(utf8_sibling_path("dir.d/notes"), "dir.d/notes.utf8");
}
