use sdirstat::text::{
    chars_of, lines_of, parse_uint, push_decimal, push_long_decimal, replaced, split_at_char,
    split_once_at, text_of, trimmed, words_of,
};

fn strings(v: &[&[char]]) -> Vec<String> {
    v.iter().map(|s| s.iter().collect()).collect()
}

const SAMPLES: [&str; 12] = [
    "", " ", "a", "a b", " a\tb ", "a\n", "a\r\nb", "a\n\nb\n", "\r", "\u{a0}x\u{2003}y\u{3000}", "é=ü=", "==",
];

#[test]
fn lines_and_words_are_those_of_strings() {
    for s in SAMPLES {
        let c = chars_of(s);
        assert_eq!(strings(&lines_of(&c)), s.lines().collect::<Vec<_>>(), "{s:?}");
        assert_eq!(strings(&words_of(&c)), s.split_whitespace().collect::<Vec<_>>(), "{s:?}");
        assert_eq!(text_of(trimmed(&c)), s.trim(), "{s:?}");
    }
}

#[test]
fn splitting_is_that_of_strings() {
    for s in SAMPLES {
        let c = chars_of(s);
        assert_eq!(strings(&split_at_char(&c, '=')), s.split('=').collect::<Vec<_>>(), "{s:?}");
        assert_eq!(
            split_once_at(&c, '=').map(|(a, b)| (text_of(a), text_of(b))),
            s.split_once('=').map(|(a, b)| (a.to_string(), b.to_string())),
            "{s:?}"
        );
    }
}

#[test]
fn white_space_is_that_of_characters() {
    for v in 0..=0x10ffffu32 {
        if let Some(c) = char::from_u32(v) {
            assert_eq!(sdirstat::text::space(c), c.is_whitespace(), "{v:x}");
        }
    }
}

#[test]
fn numbers() {
    for s in ["0", "42", "+42", "-1", "", "+", "0x1", "1 ", "18446744073709551615", "18446744073709551616", "007"] {
        let c = chars_of(s);
        assert_eq!(parse_uint(&c, u64::MAX), s.parse::<u64>().ok(), "{s}");
        assert_eq!(parse_uint(&c, u16::MAX as u64), s.parse::<u16>().ok().map(|v| v as u64), "{s}");
    }
    for n in [0, 9, 10, 12345, u64::MAX] {
        let mut s = String::new();
        push_decimal(&mut s, n);
        assert_eq!(s, n.to_string());
    }
    let mut s = String::from("n=");
    push_long_decimal(&mut s, u128::MAX);
    assert_eq!(s, format!("n={}", u128::MAX));
}

#[test]
fn replacing_is_that_of_strings() {
    for (s, p, q) in [("aaa", "aa", "b"), ("a\\040b", "\\040", " "), ("abc", "x", "y"), ("", "x", "y"), ("xx", "x", "")] {
        let r = replaced(&chars_of(s), &chars_of(p), &chars_of(q));
        assert_eq!(r.iter().collect::<String>(), s.replace(p, q));
    }
}
