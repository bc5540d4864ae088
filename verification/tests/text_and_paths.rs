use open::paths::{file_name_of, join_path};
use open::text::{
    chars_of, last_segment_chars, lines_of, split_chars, split_once_chars, split_terminator_chars,
    string_of, trim_quotes_chars, words_of,
};

fn strs(v: &Vec<Vec<char>>) -> Vec<String> {
    v.iter().map(|c| string_of(c.as_slice())).collect()
}

#[test]
fn split_keeps_empty_pieces() {
    let s = chars_of("a;b;;c;");
    assert_eq!(strs(&split_chars(&s, ';')), vec!["a", "b", "", "c", ""]);
    assert_eq!(strs(&split_chars(&chars_of(""), ';')), vec![""]);
}

#[test]
fn split_terminator_drops_one_final_empty_piece() {
    assert_eq!(strs(&split_terminator_chars(&chars_of("a;b;"), ';')), vec!["a", "b"]);
    assert_eq!(strs(&split_terminator_chars(&chars_of("a;;"), ';')), vec!["a", ""]);
    assert!(split_terminator_chars(&chars_of(""), ';').is_empty());
    assert_eq!(strs(&split_terminator_chars(&chars_of(";"), ';')), vec![""]);
}

#[test]
fn lines_strip_crlf_and_final_newline() {
    assert_eq!(strs(&lines_of(&chars_of("a\r\nb\n\nc"))), vec!["a", "b", "", "c"]);
    assert_eq!(strs(&lines_of(&chars_of("x\n"))), vec!["x"]);
    assert!(lines_of(&chars_of("")).is_empty());
    assert_eq!(strs(&lines_of(&chars_of("end\r"))), vec!["end\r"]);
}

#[test]
fn split_once_at_first_separator() {
    let (a, b) = split_once_chars(&chars_of("text/html=a.desktop;b=c"), '=').unwrap();
    assert_eq!(string_of(&a), "text/html");
    assert_eq!(string_of(&b), "a.desktop;b=c");
    assert!(split_once_chars(&chars_of("[Default Applications]"), '=').is_none());
}

#[test]
fn words_split_on_unicode_whitespace() {
    let w = words_of(&chars_of("  nvim\t--flag\u{3000}%F \n"));
    assert_eq!(strs(&w), vec!["nvim", "--flag", "%F"]);
    assert!(words_of(&chars_of(" \t ")).is_empty());
}

#[test]
fn trim_quotes_and_last_segment() {
    assert_eq!(string_of(&trim_quotes_chars(&chars_of("\"'/usr/bin/gimp'\""))), "/usr/bin/gimp");
    assert_eq!(string_of(&trim_quotes_chars(&chars_of("'\"'"))), "");
    assert_eq!(string_of(&last_segment_chars(&chars_of("/usr/bin/gimp"))), "gimp");
    assert_eq!(string_of(&last_segment_chars(&chars_of("gimp"))), "gimp");
    assert_eq!(string_of(&last_segment_chars(&chars_of("dir/"))), "");
}

#[test]
fn file_name_follows_path_components() {
    assert_eq!(file_name_of("/usr/share/applications/firefox.desktop").unwrap(), "firefox.desktop");
    assert_eq!(file_name_of("a/b/").unwrap(), "b");
    assert_eq!(file_name_of("a/b/.").unwrap(), "b");
    assert_eq!(file_name_of("x.desktop").unwrap(), "x.desktop");
    assert!(file_name_of("/").is_none());
    assert!(file_name_of("a/..").is_none());
    assert!(file_name_of(".").is_none());
    assert!(file_name_of("").is_none());
}

#[test]
fn join_adds_one_separator() {
    assert_eq!(join_path("/home/u/.local/share", "applications"), "/home/u/.local/share/applications");
    assert_eq!(join_path("/home/u/", "open"), "/home/u/open");
    assert_eq!(join_path("", "open"), "open");
    assert_eq!(join_path("/home/u", "/etc"), "/etc");
}
