use looper::text::{
    chars_of, is_white_space, lines, parse_u16, same_chars, string_of, strip_prefix, strip_suffix,
    trim, words,
};

fn v(s: &str) -> Vec<char> {
    s.chars().collect()
}

#[test]
fn white_space_is_the_unicode_property() {
    for u in 0u32..0x110000 {
        if let Some(c) = char::from_u32(u) {
            assert_eq!(is_white_space(c), c.is_whitespace(), "U+{:04X}", u);
        }
    }
}

#[test]
fn characters_and_strings_convert_back_and_forth() {
    for s in ["", "abc", "gr\u{fc}n \u{1f3b8}\n"] {
        assert_eq!(chars_of(s), v(s));
        assert_eq!(string_of(&v(s)), s);
    }
}

#[test]
fn trim_agrees_with_std() {
    for s in ["", " ", "a", " a", "a \t", "\r\n a b \u{3000}", "\u{a0}x\u{2003}", "   "] {
        assert_eq!(trim(&v(s)), v(s.trim()));
    }
}

#[test]
fn lines_are_the_pieces_between_newlines() {
    assert_eq!(lines(&v("")), vec![v("")]);
    assert_eq!(lines(&v("a")), vec![v("a")]);
    assert_eq!(lines(&v("a\n")), vec![v("a"), v("")]);
    assert_eq!(lines(&v("a\r\n\nb")), vec![v("a\r"), v(""), v("b")]);
}

#[test]
fn trimmed_lines_agree_with_std() {
    let text = "one\n\ttwo \r\n\r\n three\nfour";
    let ours: Vec<String> =
        lines(&v(text)).iter().map(|l| string_of(&trim(l))).filter(|l| !l.is_empty()).collect();
    let std: Vec<String> =
        text.lines().map(|l| l.trim().to_string()).filter(|l| !l.is_empty()).collect();
    assert_eq!(ours, std);
}

#[test]
fn words_agree_with_std() {
    for s in ["", "  ", "a", " a b", "s32le 6ch 44100Hz", "a\u{2003}bc\td\n", "abc  def "] {
        let std: Vec<Vec<char>> = s.split_whitespace().map(v).collect();
        assert_eq!(words(&v(s)), std);
    }
}

#[test]
fn prefixes_and_suffixes_are_stripped() {
    assert_eq!(strip_prefix(&v("Name: x"), &v("Name: ")), Some(v("x")));
    assert_eq!(strip_prefix(&v("Name:"), &v("Name: ")), None);
    assert_eq!(strip_prefix(&v("Nome: x"), &v("Name: ")), None);
    assert_eq!(strip_prefix(&v("x"), &v("")), Some(v("x")));
    assert_eq!(strip_suffix(&v("6ch"), &v("ch")), Some(v("6")));
    assert_eq!(strip_suffix(&v("ch"), &v("ch")), Some(v("")));
    assert_eq!(strip_suffix(&v("h"), &v("ch")), None);
    assert_eq!(strip_suffix(&v("6sh"), &v("ch")), None);
}

#[test]
fn same_characters_are_compared_one_by_one() {
    assert!(same_chars(&v("abc"), &v("abc")));
    assert!(!same_chars(&v("abc"), &v("abd")));
    assert!(!same_chars(&v("abc"), &v("ab")));
    assert!(same_chars(&[], &[]));
}

#[test]
fn numbers_of_sixteen_bits_are_read_like_std_reads_them() {
    for s in [
        "0", "6", "65535", "65536", "99999999999999999999", "00000000000000000006", "+7", "+", "",
        "-1", "-0", "++1", " 1", "1 ", "1a", "a", "0x10", "\u{664}",
    ] {
        assert_eq!(parse_u16(&v(s)), s.parse::<u16>().ok(), "{:?}", s);
    }
}
