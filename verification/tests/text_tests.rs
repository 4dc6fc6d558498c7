use parser_core::text::{parse_u32, trim_quotes, trim_whitespace};

#[test]
fn trim_ascii_whitespace() {
    assert_eq!(trim_whitespace(b"  x y \t\n"), b"x y");
    assert_eq!(trim_whitespace(b"   "), b"");
    assert_eq!(trim_whitespace(b""), b"");
}

#[test]
fn trim_unicode_whitespace_like_str_trim() {
    let s = "\u{3000}\u{00A0}key\u{2003}\u{0085}";
    assert_eq!(trim_whitespace(s.as_bytes()), s.trim().as_bytes());
    let t = "\u{1680}\u{205F}x\u{202F}\u{2029}";
    assert_eq!(trim_whitespace(t.as_bytes()), t.trim().as_bytes());
}

#[test]
fn trim_keeps_non_whitespace_unicode() {
    let s = " \u{00E9}t\u{00E9} ";
    assert_eq!(trim_whitespace(s.as_bytes()), "\u{00E9}t\u{00E9}".as_bytes());
}

#[test]
fn trim_quotes_strips_all_surrounding_quotes() {
    assert_eq!(trim_quotes(b"\"abc\""), b"abc");
    assert_eq!(trim_quotes(b"\"\"ab\""), b"ab");
    assert_eq!(trim_quotes(b"\"\"\""), b"");
    assert_eq!(trim_quotes(b"a\"b"), b"a\"b");
}

#[test]
fn parse_u32_accepts_what_str_parse_accepts() {
    for s in ["0", "42", "+42", "007", "4294967295"] {
        assert_eq!(parse_u32(s.as_bytes()), s.parse::<u32>().ok(), "{s}");
    }
}

#[test]
fn parse_u32_rejects_what_str_parse_rejects() {
    for s in ["", "+", "-1", "4294967296", "12a", " 1", "1 ", "++1"] {
        assert_eq!(parse_u32(s.as_bytes()), None, "{s}");
        assert!(s.parse::<u32>().is_err());
    }
}

#[test]
fn trim_matches_str_trim_for_every_char_below_u_3100() {
    for code in 0u32..0x3100 {
        if let Some(c) = char::from_u32(code) {
            let s = format!("{c}{c}a{c}b{c}");
            assert_eq!(
                trim_whitespace(s.as_bytes()),
                s.trim().as_bytes(),
                "U+{code:04X}"
            );
        }
    }
}
