use matchmaker::text::{parse_u64, parse_usize, same_text, to_chars, trim_start};

const NUMBERS: [&str; 20] = [
    "", "0", "7", "00012", "+5", "+", "++5", "-1", "-0", " 1", "1 ", "1_000", "0x10", "42a", "a42",
    "18446744073709551615", "18446744073709551616", "99999999999999999999999", "+18446744073709551615",
    "\u{0664}",
];

#[test]
fn numbers_are_read_as_the_standard_library_reads_them() {
    for text in NUMBERS {
        assert_eq!(parse_u64(text), text.parse::<u64>().ok(), "{text}");
        assert_eq!(parse_usize(text), text.parse::<usize>().ok(), "{text}");
    }
}

#[test]
fn prefixes_are_taken_off_repeatedly() {
    for text in ["/queue/12", "/queue//queue/12", "/queue/queue/1", "/queu", "", "/queue/", "x/queue/1", "/queue/ü"] {
        let chars = to_chars(text);
        let at = trim_start(&chars, &to_chars("/queue/"));
        let rest: String = chars[at..].iter().collect();
        assert_eq!(rest, text.trim_start_matches("/queue/"), "{text}");
        assert_eq!(at > 0, text.starts_with("/queue/"));
    }
}

#[test]
fn texts_are_compared_by_character() {
    assert!(same_text("", ""));
    assert!(same_text("größe", "größe"));
    assert!(!same_text("a", "ab"));
    assert!(!same_text("true", "TRUE"));
}
