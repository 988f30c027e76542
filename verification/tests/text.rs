use wluma::text::{
    contains, equal, find, parse_u64, starts_with, to_decimal, to_hexadecimal, trim,
};

#[test]
fn finds_parts_of_texts() {
    assert!(contains("card0-DP-1", "DP-1"));
    assert!(contains("aab", "ab"));
    assert!(contains("anything", ""));
    assert!(contains("", ""));
    assert!(!contains("DP", "DP-1"));
    assert!(!contains("DP-2", "DP-1"));
    assert!(contains("Größe é", "é"));
    assert!(starts_with("applesmc.768", "applesmc."));
    assert!(!starts_with("xapplesmc.", "applesmc."));
    assert!(equal("same", "same"));
    assert!(!equal("same", "samE"));
    assert!(!equal("same", "sam"));
}

#[test]
fn trims_like_the_standard_library() {
    for text in [
        "", " ", "a", " a ", "\t\n a b \r\n", "\u{85}x\u{2028}", "\u{200b}x", "x\u{1680}\u{205f}",
        "\u{feff}x ", "\u{2000}\u{200a}\u{202f}\u{3000}",
    ] {
        assert_eq!(trim(text), text.trim());
    }
}

#[test]
fn parses_like_the_standard_library() {
    for text in [
        "", "0", "7", "+7", "-7", "+", "-", "++1", "007", "18446744073709551615",
        "18446744073709551616", "99999999999999999999999", "1 ", "1a", "\u{661}",
    ] {
        assert_eq!(parse_u64(text), text.parse::<u64>().ok(), "{text}");
    }
}

#[test]
fn formats_like_the_standard_library() {
    for value in [0_u32, 1, 9, 10, 16, 255, 4096, 305441741, u32::MAX] {
        assert_eq!(to_decimal(value), format!("{value}"));
        assert_eq!(to_hexadecimal(value, 8), format!("{value:08x}"));
    }
    assert_eq!(to_hexadecimal(0xabc, 2), "bc");
}

#[test]
fn finds_the_first_separator() {
    assert_eq!(find("a,b,c", ','), Some(1));
    assert_eq!(find(",", ','), Some(0));
    assert_eq!(find("abc", ','), None);
    assert_eq!(find("", ','), None);
}
