use hydra::text::{comes_before, push_number, same, split_at_first, trim};

#[test]
fn trimming_takes_unicode_white_space() {
    assert_eq!(trim(" \t\r\n a b \u{3000}\u{a0}\n"), "a b");
    assert_eq!(trim("\u{2003}\u{85}"), "");
    assert_eq!(trim("\u{200b}x"), "\u{200b}x");
    for s in ["", "x", "  x", "x\u{2028}", "\u{1680}y\u{205f}"] {
        assert_eq!(trim(s), s.trim());
    }
}

#[test]
fn splitting_finds_the_first_place() {
    assert_eq!(split_at_first("a/v1/b/v1", "/v1"), Some(("a", "/v1/b/v1")));
    assert_eq!(split_at_first("é…/v1", "/v1"), Some(("é…", "/v1")));
    assert_eq!(split_at_first("/v", "/v1"), None);
    assert_eq!(split_at_first("", "/v1"), None);
}

#[test]
fn numbers_are_written_out() {
    let number = |n: u128, base: u128| {
        let mut s = String::new();
        push_number(&mut s, n, base);
        s
    };
    assert_eq!(number(0, 10), "0");
    assert_eq!(number(65535, 10), "65535");
    assert_eq!(number(255, 16), "ff");
    assert_eq!(number(0xdead_beef_0012, 16), "deadbeef0012");
    assert_eq!(number(u128::MAX, 10), u128::MAX.to_string());
}

#[test]
fn texts_are_compared() {
    assert!(same("añ", "añ"));
    assert!(!same("a", "b"));
    assert!(!same("a", "ab"));
    for (a, b) in [("a", "b"), ("a", "ab"), ("", "a"), ("b", "a"), ("é", "z"), ("x", "x"), ("Z", "a")] {
        assert_eq!(comes_before(a, b), a < b);
    }
}
