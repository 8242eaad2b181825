use winsel::encoding::{decode_text, encode_text};
use winsel::text::{
    contains, decimal_text, eq_ignore_ascii_case, join, parse_i128, parse_usize, replace, same_text,
    split_words, text_lines, trim, trim_end,
};

#[test]
fn trim_follows_str_trim() {
    for s in ["  a b  ", "\u{2003}x\u{85}", "", "   ", "\tq\n"] {
        assert_eq!(trim(s), s.trim());
        assert_eq!(trim_end(s), s.trim_end());
    }
}

#[test]
fn contains_and_replace() {
    assert!(contains("my winsel window", "winsel"));
    assert!(!contains("my window", "winsel"));
    assert!(contains("abc", ""));
    assert_eq!(replace("aXbXc", "X", "--"), "a--b--c");
    assert_eq!(replace("aaa", "aa", "b"), "ba");
    assert_eq!(replace("ab", "", "-"), "-a-b-");
}

#[test]
fn join_and_lines_and_words() {
    assert_eq!(join(&vec!["a".to_string(), "b".to_string()], ", "), "a, b");
    assert_eq!(join(&vec![], ", "), "");
    assert_eq!(text_lines("a\r\nb\n\nc\n"), vec!["a", "b", "", "c"]);
    assert_eq!(split_words("  one\ttwo \u{3000}three "), vec!["one", "two", "three"]);
}

#[test]
fn ascii_case_and_equality() {
    assert!(eq_ignore_ascii_case("WinSel", "winsel"));
    assert!(!eq_ignore_ascii_case("WinSel", "winsels"));
    assert!(same_text("é", "é"));
    assert!(!same_text("a", "b"));
}

#[test]
fn decimal_reads_back() {
    for n in [0i128, 7, -7, 1_700_000_000, i128::MIN, i128::MAX] {
        assert_eq!(decimal_text(n), n.to_string());
        assert_eq!(parse_i128(&decimal_text(n)), Some(n));
    }
    assert_eq!(parse_usize(&decimal_text(usize::MAX as i128)), Some(usize::MAX));
}

#[test]
fn parse_errors() {
    assert_eq!(parse_usize(""), None);
    assert_eq!(parse_usize("-1"), None);
    assert_eq!(parse_usize("1 "), None);
    assert_eq!(parse_usize("+"), None);
    assert_eq!(parse_usize("99999999999999999999999"), None);
    assert_eq!(parse_i128("170141183460469231731687303715884105728"), None);
    assert_eq!(parse_i128("-170141183460469231731687303715884105728"), Some(i128::MIN));
    assert_eq!(parse_i128("+12"), Some(12));
    assert_eq!(parse_i128("-"), None);
}

#[test]
fn base64_round_trip() {
    assert_eq!(encode_text("vim"), "dmlt");
    assert_eq!(encode_text(""), "");
    assert_eq!(decode_text("dmlt"), Some("vim".to_string()));
    for s in ["", "a", "ü/é ~", "go run -C ~/src/ollama . serve"] {
        assert_eq!(decode_text(&encode_text(s)), Some(s.to_string()));
    }
}

#[test]
fn base64_errors() {
    assert_eq!(decode_text("!!"), None);
    assert_eq!(decode_text("dml"), None);
    // Valid base64 whose bytes are not UTF-8.
    assert_eq!(decode_text("//8="), None);
}
