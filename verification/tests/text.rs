use rget::text::{
    find_chars, from_chars, is_white_space, keep_hex, lower_chars, split_lines, to_chars,
    trim_chars,
};

#[test]
fn white_space_is_the_unicode_property() {
    for u in 0..=0x10FFFFu32 {
        if let Some(c) = char::from_u32(u) {
            assert_eq!(is_white_space(c), c.is_whitespace());
        }
    }
}

#[test]
fn lines_are_split_as_std_does() {
    for s in ["", "\n", "a", "a\n", "a\nb", "a\r\nb\r\n", "\r\n\r\n", "a\rb\n\r", "\n\n x"] {
        let mine: Vec<String> = split_lines(&to_chars(s)).iter().map(from_chars).collect();
        let std: Vec<&str> = s.lines().collect();
        assert_eq!(mine, std, "{:?}", s);
    }
}

#[test]
fn texts_are_trimmed_and_lowered_as_std_does() {
    for s in ["", "  ", " a b ", "\u{3000}x\u{a0}", "ÄBC", "x\t\r\n", "Zz[@`{"] {
        assert_eq!(from_chars(&trim_chars(&to_chars(s))), s.trim());
        assert_eq!(
            from_chars(&lower_chars(&to_chars(s))),
            s.to_ascii_lowercase()
        );
    }
}

#[test]
fn texts_are_searched_as_std_does() {
    for (s, pat) in [("abcabc", "bc"), ("aab", "ab"), ("", ""), ("x", ""), ("", "x"), ("aaa", "aab")] {
        assert_eq!(find_chars(&to_chars(s), &to_chars(pat)), s.find(pat));
    }
    assert_eq!(from_chars(&keep_hex(&to_chars("0x1G-fF"))), "01fF");
}
