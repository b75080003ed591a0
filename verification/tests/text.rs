//! Characters, lines, numerals and byte order, next to what std does.

use lusty::bytes::bytes_le;
use lusty::number::{parse_u8, parse_usize, push_decimal, push_signed};
use lusty::text::{
    bytes_eq, chars_are, chars_contain, chars_end_with, chars_of, chars_start_with,
    count_char_bytes, falls_on_boundary, find_char, is_control, is_final_char, is_white_space,
    lines, split, str_eq, string_of, strip_back_char, strip_front_char, to_ascii_lower,
    to_ascii_lower_char, trim,
};

const SAMPLES: &[&str] = &[
    "",
    " ",
    "a",
    "a\n",
    "\n",
    "\n\n",
    "a\r\nb\r\n",
    "a\rb",
    "\r",
    "a\nb\r",
    " \u{3000}щи \t\u{85}",
    "x=y=z",
    "==",
    "##a#",
    "中a🙂",
];

fn text(s: &[char]) -> String {
    s.iter().collect()
}

#[test]
fn character_classes_agree_with_std() {
    for u in 0..=0x10ffffu32 {
        if let Some(c) = char::from_u32(u) {
            assert_eq!(is_white_space(c), c.is_whitespace(), "{u:x}");
            assert_eq!(is_control(c), c.is_control(), "{u:x}");
            assert_eq!(count_char_bytes(c), c.len_utf8(), "{u:x}");
            assert_eq!(to_ascii_lower_char(c), c.to_ascii_lowercase(), "{u:x}");
            assert_eq!(is_final_char(c), ('\x40'..='\x7e').contains(&c), "{u:x}");
        }
    }
    for b in 0..=255u8 {
        assert_eq!(to_ascii_lower(b), b.to_ascii_lowercase());
    }
}

#[test]
fn texts_are_cut_as_std_cuts_them() {
    for s in SAMPLES {
        let chars = chars_of(s);
        assert_eq!(string_of(&chars), *s);
        assert_eq!(text(trim(&chars)), s.trim());
        let ls: Vec<String> = lines(&chars).iter().map(|l| text(l)).collect();
        assert_eq!(ls, s.lines().collect::<Vec<_>>(), "{s:?}");
        for sep in ['=', '\n', 'a'] {
            let parts: Vec<String> = split(&chars, sep).iter().map(|p| text(p)).collect();
            assert_eq!(parts, s.split(sep).collect::<Vec<_>>(), "{s:?}");
            let at = s.chars().position(|c| c == sep).unwrap_or(chars.len());
            assert_eq!(find_char(&chars, sep), at);
            assert_eq!(text(strip_front_char(&chars, sep)), s.trim_start_matches(sep));
            assert_eq!(text(strip_back_char(&chars, sep)), s.trim_end_matches(sep));
        }
        for at in 0..s.len() + 3 {
            assert_eq!(falls_on_boundary(&chars, at), s.is_char_boundary(at), "{s:?} {at}");
        }
        for t in SAMPLES {
            let other = chars_of(t);
            assert_eq!(chars_start_with(&chars, &other), s.starts_with(t));
            assert_eq!(chars_end_with(&chars, &other), s.ends_with(t));
            assert_eq!(chars_contain(&chars, &other), s.contains(t));
            assert_eq!(chars_are(&chars, t), s == t);
            assert_eq!(str_eq(s, t), s == t);
            assert_eq!(bytes_eq(s.as_bytes(), t.as_bytes()), s == t);
            assert_eq!(bytes_le(s.as_bytes(), t.as_bytes()), s.as_bytes() <= t.as_bytes());
        }
    }
}

#[test]
fn numbers_parse_as_std_parses_them() {
    let cases = [
        "", "+", "-", "0", "00", "+0", "-0", "7", "+7", "++7", "255", "256", "0255", "1 ", " 1",
        "12a", "18446744073709551615", "18446744073709551616", "99999999999999999999999", "٣",
    ];
    for s in cases {
        let chars = chars_of(s);
        assert_eq!(parse_usize(&chars), s.parse::<usize>().ok(), "{s:?}");
        assert_eq!(parse_u8(&chars), s.parse::<u8>().ok(), "{s:?}");
    }
}

#[test]
fn numerals_read_back() {
    for n in [0usize, 1, 9, 10, 99, 100, 12345, usize::MAX] {
        let mut out = String::from("n=");
        push_decimal(&mut out, n as u128);
        assert_eq!(out, format!("n={n}"));
        assert_eq!(parse_usize(&chars_of(&out[2..])), Some(n));
    }
    for n in [0i64, 7, -1, -10, i64::MAX, i64::MIN] {
        let mut out = String::new();
        push_signed(&mut out, n);
        assert_eq!(out, n.to_string());
    }
    let mut big = String::new();
    push_decimal(&mut big, u128::MAX);
    assert_eq!(big, u128::MAX.to_string());
}
