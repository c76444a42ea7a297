use brakoll::text::{
    chars_of, decimal_chars, find_chars, lines_chars, parse_u32_chars, rsplit_once_chars,
    signed_decimal_chars, split_chars, split_once_chars, string_of, trim_chars,
};

fn cs(s: &str) -> Vec<char> {
    s.chars().collect()
}

fn st(v: &[char]) -> String {
    v.iter().collect()
}

#[test]
fn trim_drops_unicode_whitespace_on_both_ends() {
    assert_eq!(st(&trim_chars(&cs("  \t a b \n"))), "a b");
    assert_eq!(st(&trim_chars(&cs("\u{3000}x\u{a0}"))), "x");
    assert_eq!(st(&trim_chars(&cs("   "))), "");
    assert_eq!(st(&trim_chars(&cs(""))), "");
}

#[test]
fn lines_follow_str_lines() {
    let text = "a\r\nb\n\nc\r";
    let got: Vec<String> = lines_chars(&cs(text)).iter().map(|l| st(l)).collect();
    let want: Vec<String> = text.lines().map(|l| l.to_string()).collect();
    assert_eq!(got, want);
    assert_eq!(lines_chars(&cs("")).len(), 0);
    assert_eq!(lines_chars(&cs("x\n")).len(), 1);
    assert_eq!(lines_chars(&cs("\n")).len(), 1);
}

#[test]
fn split_keeps_empty_pieces() {
    let got: Vec<String> = split_chars(&cs("a,,b,"), ',').iter().map(|p| st(p)).collect();
    assert_eq!(got, vec!["a", "", "b", ""]);
    assert_eq!(split_chars(&cs(""), ',').len(), 1);
}

#[test]
fn split_once_and_rsplit_once_use_first_and_last_separator() {
    let (a, b) = split_once_chars(&cs("k: v: w"), ':').unwrap();
    assert_eq!((st(&a), st(&b)), ("k".to_string(), " v: w".to_string()));
    assert!(split_once_chars(&cs("none"), ':').is_none());
    let (a, b) = rsplit_once_chars(&cs("/home/u/main.rs"), '/').unwrap();
    assert_eq!((st(&a), st(&b)), ("/home/u".to_string(), "main.rs".to_string()));
    assert!(rsplit_once_chars(&cs("main.rs"), '/').is_none());
}

#[test]
fn find_gives_first_occurrence() {
    assert_eq!(find_chars(&cs("xd:yd:"), &cs("d:")), Some(1));
    assert_eq!(find_chars(&cs("abc"), &cs("d:")), None);
    assert_eq!(find_chars(&cs("abc"), &cs("")), Some(0));
}

#[test]
fn parse_u32_follows_from_str() {
    for text in ["0", "10", "+7", "-5", "", "+", "4294967295", "4294967296", "12a", " 1", "007"] {
        assert_eq!(parse_u32_chars(&cs(text)), text.parse::<u32>().ok(), "{text}");
    }
}

#[test]
fn decimal_text_matches_display() {
    for n in [0u64, 7, 10, 99, 100, 4294967295, u64::MAX] {
        assert_eq!(st(&decimal_chars(n)), n.to_string());
    }
    for n in [0i64, -1, -120, 55, i64::MIN, i64::MAX] {
        assert_eq!(st(&signed_decimal_chars(n)), n.to_string());
    }
}

#[test]
fn string_conversions_round_trip() {
    let s = "héllo wörld";
    assert_eq!(string_of(&chars_of(s)), s);
}
