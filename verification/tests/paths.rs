use skeletor::path::TreePath;
use skeletor::tasks::check_name;
use skeletor::text::{chars_of, decimal_text, is_whitespace, join, same_text, split, trim, Delimiter};

#[test]
fn a_path_is_read_in_any_notation() {
    for text in ["src/lib", "./src/lib", "src//lib/", "src\\lib", ".\\src\\.\\lib\\"] {
        let path = TreePath::parse(text);
        assert_eq!(path, TreePath::parse("src/lib"));
        assert_eq!(path.to_text(), "src/lib");
        assert_eq!(path.relative_text(), "src/lib");
        assert!(!path.is_rooted());
        assert_eq!(path.segment_count(), 2);
        assert_eq!(path.segment(0), Some("src"));
        assert_eq!(path.segment(1), Some("lib"));
        assert_eq!(path.segment(2), None);
    }
    let rooted = TreePath::parse("/usr/../lib");
    assert!(rooted.is_rooted());
    assert_eq!(rooted.to_text(), "/usr/../lib");
    assert_eq!(rooted.relative_text(), "usr/../lib");
    assert_eq!(TreePath::parse("/").to_text(), "/");
    assert_eq!(TreePath::parse("").to_text(), ".");
    assert_eq!(TreePath::parse("./.").to_text(), ".");
    assert_eq!(TreePath::parse("."), TreePath::here());
    assert_eq!(TreePath::parse("C:\\out").to_text(), "C:/out");
    assert_ne!(TreePath::parse("/a"), TreePath::parse("a"));
}

#[test]
fn paths_are_joined_and_cut() {
    let base = TreePath::parse("out");
    assert_eq!(base.join("a/b.txt").to_text(), "out/a/b.txt");
    assert_eq!(base.join("").to_text(), "out");
    assert_eq!(base.join("./x/").to_text(), "out/x");
    assert_eq!(TreePath::here().join("x").to_text(), "x");
    assert_eq!(TreePath::parse("/").join("x").to_text(), "/x");
    let long = TreePath::parse("/a/b/c");
    assert_eq!(long.ancestor(0).to_text(), "/");
    assert_eq!(long.ancestor(2).to_text(), "/a/b");
    assert_eq!(long.ancestor(3), long);
    assert_eq!(long.ancestor(9), long);
    assert_eq!(long.clone(), long);
    let from: TreePath = "x/./y".into();
    assert_eq!(from.to_text(), "x/y");
}

#[test]
fn names_that_lead_out_are_not_safe() {
    for name in ["a", "a/b", "a.b", "...", "..a", "a..", "a/./b", "", ".", "1:", ":x", "é:x"] {
        assert!(check_name(name), "{:?} is safe", name);
    }
    for name in ["..", "../x", "a/..", "a/../b", "a\\..\\b", "/", "/a", "\\a", "C:", "c:\\x", "z:y"] {
        assert!(!check_name(name), "{:?} is not safe", name);
    }
}

#[test]
fn text_is_cut_and_joined() {
    let cut = |text: &str, d| split(text, d);
    assert_eq!(cut("a/b\\c", Delimiter::PathSeparator), vec!["a", "b", "c"]);
    assert_eq!(cut("/a//", Delimiter::PathSeparator), vec!["", "a", "", ""]);
    assert_eq!(cut("", Delimiter::PathSeparator), vec![""]);
    assert_eq!(cut("one\ntwo\r\n\nthree", Delimiter::LineBreak), vec!["one", "two\r", "", "three"]);
    assert_eq!(cut("a/b", Delimiter::LineBreak), vec!["a/b"]);
    let parts = vec!["x".to_string(), "".to_string(), "yz".to_string()];
    assert_eq!(join(&parts, ", "), "x, , yz");
    assert_eq!(join(&parts[..1].to_vec(), "/"), "x");
    assert_eq!(join(&Vec::new(), "/"), "");
    assert_eq!(chars_of("aé"), vec!['a', 'é']);
    assert!(same_text("héllo", "héllo"));
    assert!(!same_text("hello", "hellö"));
    assert!(!same_text("a", "ab"));
}

#[test]
fn white_space_is_trimmed() {
    assert_eq!(trim("  a b \t\r\n"), "a b");
    assert_eq!(trim("\u{3000}x\u{a0}"), "x");
    assert_eq!(trim(" \t "), "");
    assert_eq!(trim(""), "");
    assert_eq!(trim("x"), "x");
    for c in ['\u{0}', '\u{8}', '\u{9}', '\u{d}', '\u{e}', ' ', '\u{85}', '\u{a0}', '\u{1680}', '\u{1fff}', '\u{2000}', '\u{200a}', '\u{200b}', '\u{2028}', '\u{2029}', '\u{202f}', '\u{205f}', '\u{3000}', 'a', '\u{feff}'] {
        assert_eq!(is_whitespace(c), c.is_whitespace(), "{:?}", c);
    }
}

#[test]
fn numbers_are_written_in_decimal() {
    assert_eq!(decimal_text(0), "0");
    assert_eq!(decimal_text(7), "7");
    assert_eq!(decimal_text(10), "10");
    assert_eq!(decimal_text(1005), "1005");
    assert_eq!(decimal_text(u64::MAX), "18446744073709551615");
}
