use nb_api::paths::{
    file_name_of, file_stem_of, normalize_rel, parent_of, parent_path, split_folder_basename,
};
use nb_api::text::{
    decimal_of, find_text_in, is_before, is_whitespace, join_with, lines_of, parse_unsigned,
    read_utf8, sorted_unique, split_on, trimmed, trimmed_end, trimmed_start, with_first_replaced,
};
use std::path::Path;

fn strings(items: &[&str]) -> Vec<String> {
    items.iter().map(|s| s.to_string()).collect()
}

#[test]
fn white_space_is_that_of_the_language() {
    for n in 0..=0x10ffffu32 {
        if let Some(c) = char::from_u32(n) {
            assert_eq!(is_whitespace(c), c.is_whitespace(), "{n:x}");
        }
    }
}

#[test]
fn trimming_and_splitting_agree_with_the_language() {
    for s in ["", " ", "a", " a b\t", "\u{a0}x\u{2003}", "\n\n", "a\r\nb\n\nc", "x\r", "\r\n"] {
        assert_eq!(trimmed(s), s.trim());
        assert_eq!(trimmed_end(s), s.trim_end());
        assert_eq!(trimmed_start(s), s.trim_start());
        let want: Vec<String> = s.lines().map(|l| l.to_string()).collect();
        assert_eq!(lines_of(s), want, "{s:?}");
        let parts: Vec<String> = s.split('\n').map(|l| l.to_string()).collect();
        assert_eq!(split_on(s, '\n'), parts);
    }
}

#[test]
fn numbers_read_and_print_like_the_language() {
    for n in [0u64, 7, 10, 99, 12345, u64::MAX] {
        assert_eq!(decimal_of(n), n.to_string());
    }
    for s in ["0", "007", "+5", "-1", "", "+", "1a", "18446744073709551615", "18446744073709551616"] {
        assert_eq!(parse_unsigned(s), s.parse::<usize>().ok(), "{s}");
    }
}

#[test]
fn order_is_that_of_the_language() {
    let items = ["", "a", "b", "ab", "a/b", "\u{e9}", "\u{10000}", "\u{ffff}"];
    for a in items {
        for b in items {
            assert_eq!(is_before(a, b), a < b, "{a:?} {b:?}");
        }
    }
    assert_eq!(sorted_unique(&strings(&["b", "a", "b", "ab"])), strings(&["a", "ab", "b"]));
    assert_eq!(join_with(&strings(&["a", "b", "c"]), ", "), "a, b, c");
}

#[test]
fn first_occurrences_are_found_and_replaced() {
    assert_eq!(find_text_in("abcabc", "ca"), Some(2));
    assert_eq!(find_text_in("abc", "x"), None);
    assert_eq!(find_text_in("abc", ""), Some(0));
    for (s, p, w) in [("a[ ]b[ ]", "[ ]", "[x]"), ("abc", "z", "y"), ("aaa", "a", "")] {
        assert_eq!(with_first_replaced(s, p, w), s.replacen(p, w, 1));
    }
}

#[test]
fn utf8_is_checked() {
    assert_eq!(read_utf8("h\u{e9}".as_bytes()).ok(), Some("h\u{e9}"));
    assert!(read_utf8(&[0xff, 0x41]).is_err());
}

#[test]
fn path_parts_agree_with_the_language() {
    for p in [
        "a", "a/b", "a/b/", "/a", "/", "", "a//b", "a/.", "a/..", "..", ".", "a/./b", "x.md",
        "a/.hidden", "a/x.tar.gz", "a/x.", "./a",
    ] {
        let path = Path::new(p);
        assert_eq!(
            file_name_of(p),
            path.file_name().map(|s| s.to_str().unwrap().to_string()),
            "name of {p:?}"
        );
        assert_eq!(
            file_stem_of(p),
            path.file_stem().map(|s| s.to_str().unwrap().to_string()),
            "stem of {p:?}"
        );
        assert_eq!(
            parent_of(p),
            path.parent().map(|s| s.to_str().unwrap().to_string()),
            "parent of {p:?}"
        );
    }
}

#[test]
fn relative_paths_are_normalized() {
    assert_eq!(normalize_rel(" ./docs\\a.md/ "), "docs/a.md");
    assert_eq!(normalize_rel("/docs/"), "docs");
    assert_eq!(parent_path("docs/a.md"), Some("docs".to_string()));
    assert_eq!(parent_path("a.md"), None);
    assert_eq!(
        split_folder_basename("a/b/c.md"),
        ("a/b".to_string(), "c.md".to_string())
    );
    assert_eq!(split_folder_basename("c.md"), (String::new(), "c.md".to_string()));
}
