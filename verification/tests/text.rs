use std::path::Path;
use subtitle_assistant::text::chars::{chars_of, concat2, string_of, substring};
use subtitle_assistant::text::number::{decimal_text, parse_u64, push_padded};
use subtitle_assistant::text::pieces::{find_in, join_slices, replace_in, split_in};
use subtitle_assistant::text::path::{is_same_path, path_of};
use subtitle_assistant::text::spaces::{is_blank, one_line_of, trimmed};
use subtitle_assistant::text::table::{comes_before, TextMap};

fn parts(s: &str, p: &str) -> Vec<String> {
    let text = chars_of(s);
    let sep = chars_of(p);
    split_in(&text, &sep).into_iter().map(string_of).collect()
}

#[test]
fn splitting_and_joining_undo_each_other() {
    for (s, p) in [("a,b,,c", ","), ("", ","), (",", ","), ("aaa", "aa"), ("x\n\n\ny", "\n\n")] {
        let want: Vec<&str> = s.split(p).collect();
        assert_eq!(parts(s, p), want);
        let text = chars_of(s);
        let sep = chars_of(p);
        let list = split_in(&text, &sep);
        assert_eq!(join_slices(&list, &sep), text);
        let other = chars_of("--");
        assert_eq!(string_of(&replace_in(&text, &sep, &other)), s.replace(p, "--"));
    }
}

#[test]
fn searching() {
    let s = chars_of("日本日本語");
    assert_eq!(find_in(&s, &chars_of("日本語")), Some(2));
    assert_eq!(find_in(&s, &chars_of("英")), None);
    assert_eq!(find_in(&s, &[]), Some(0));
    assert_eq!(substring(&s, 2, 4), "日本");
    assert_eq!(concat2("日", "本"), "日本");
}

#[test]
fn numbers_are_read_and_written() {
    for n in [0u64, 7, 10, 99, 12345, u64::MAX] {
        assert_eq!(decimal_text(n), n.to_string());
        assert_eq!(parse_u64(&chars_of(&n.to_string())), Some(n));
    }
    for s in ["", "+", "-1", " 1", "1 ", "1_0", "18446744073709551616", "٣"] {
        assert_eq!(parse_u64(&chars_of(s)), s.parse::<u64>().ok());
    }
    for s in ["+5", "007", "+000"] {
        assert_eq!(parse_u64(&chars_of(s)), s.parse::<u64>().ok());
    }
    let mut out = "x".to_string();
    push_padded(&mut out, 7, 3);
    push_padded(&mut out, 1234, 3);
    assert_eq!(out, "x0071234");
}

#[test]
fn trimming() {
    for s in ["", "  ", " a b ", "\u{3000}日\u{a0}", "\r\nx\t"] {
        assert_eq!(trimmed(s), s.trim());
        assert_eq!(is_blank(s), s.trim().is_empty());
    }
    assert_eq!(string_of(&one_line_of("a\nb\n")), "a b ");
}

#[test]
fn paths_of_files() {
    let dirs = ["", ".", "d", "d/", "/", "/d", "d/e", "日 本", "C:", "d\\"];
    let files = ["f", "/f", "", "./f", "a/b", "C:f", "\\f"];
    for dir in dirs {
        for file in files {
            let want = Path::new(dir).join(file);
            assert_eq!(path_of(dir, file, '/'), want.to_string_lossy());
        }
    }
    for (dir, file, want) in [
        ("C:\\d", "f", "C:\\d\\f"),
        ("C:\\d\\", "f", "C:\\d\\f"),
        ("d/", "f", "d/f"),
        ("", "f", "f"),
        ("C:", "f", "C:f"),
        ("C:\\d", "\\f", "C:\\f"),
        ("C:\\d", "/f", "C:/f"),
        ("C:\\d", "D:f", "D:f"),
        ("d", "/f", "/f"),
    ] {
        assert_eq!(path_of(dir, file, '\\'), want);
    }
}

#[test]
fn same_paths() {
    let list = [
        "", ".", "./", "/", "/.", "//", "a", "./a", "a/", "a/.", "a//b", "a/b", "a/./b", "a/../b",
        "../b", "/a", "/./a", ".a", "a.", "a\\b", "..", "./..",
    ];
    for a in list {
        for b in list {
            assert_eq!(is_same_path(a, b, '/'), Path::new(a) == Path::new(b), "{a} {b}");
        }
    }
    assert!(is_same_path(".\\models", "./models", '\\'));
    assert!(is_same_path("a\\\\b\\", "a/b", '\\'));
    assert!(!is_same_path("\\a", "a", '\\'));
}

#[test]
fn tables_keep_the_latest_entry() {
    let mut t = TextMap::new();
    t.insert("b", "1");
    t.insert("a", "2");
    t.insert("b", "3");
    assert_eq!(t.get("b"), Some("3"));
    assert_eq!(t.get("c"), None);
    assert!(t.contains("a") && !t.contains("c"));
    assert_eq!(t.sorted_keys(), "a, b");
}

#[test]
fn texts_are_ordered_as_usual() {
    let list = ["", "a", "aa", "ab", "b", "日", "日本", "語"];
    for a in list {
        for b in list {
            assert_eq!(comes_before(a, b), a < b);
        }
    }
}
