use sdirstat::escape::{hex_digit, hex_digit_upper, json_escape, url_decode, url_unescape};
use sdirstat::hash::Acc;

#[test]
fn digits() {
    let lower: String = (0..16u8).map(hex_digit).collect();
    let upper: String = (0..16u8).map(hex_digit_upper).collect();
    assert_eq!(lower, "0123456789abcdef");
    assert_eq!(upper, "0123456789ABCDEF");
}

#[test]
fn json_strings() {
    let mut s = String::from(">");
    json_escape("a\"b\\c\nd\re\tf\u{0}g\u{1f}h\u{20}…", &mut s);
    assert_eq!(s, ">a\\\"b\\\\c\\nd\\re\\tf\\u0000g\\u001fh …");
}

#[test]
fn json_text_has_no_control_characters() {
    let all: String = (0..0x80u8).map(|b| b as char).collect();
    let mut s = String::new();
    json_escape(&all, &mut s);
    assert!(s.chars().all(|c| c >= ' '));
}

#[test]
fn percent_decoding() {
    assert_eq!(url_unescape("a%20b%2Fc"), "a b/c");
    assert_eq!(url_unescape("a+b"), "a+b");
    assert_eq!(url_decode("a+b%2B"), "a b+");
    assert_eq!(url_unescape("%C3%A9"), "é");
    assert_eq!(url_unescape("%c3%a9"), "é");
}

#[test]
fn percent_decoding_of_broken_codes() {
    // too short for a code
    assert_eq!(url_unescape("100%"), "100%");
    assert_eq!(url_unescape("100%2"), "100%2");
    // not a digit: counts as zero
    assert_eq!(url_unescape("%zA"), "\n");
    // not UTF-8
    assert_eq!(url_unescape("x%FFy"), "x\u{fffd}y");
}

#[test]
fn cache_escape_reads_back() {
    let name = "a b%20\t\n\u{1}é…/\u{a0}";
    let mut a = Acc::with_capacity(0);
    a.esc(name);
    assert_eq!(url_unescape(&a.into_string()), name);
}

#[test]
fn plain_text_is_decoded_to_itself() {
    assert_eq!(url_unescape("/usr/lib+é"), "/usr/lib+é");
    assert_eq!(url_decode("/usr/lib/é"), "/usr/lib/é");
}
